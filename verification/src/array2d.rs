//! A value-typed, fixed-size rectangular array with row-major storage.

use vstd::prelude::*;

verus! {

/// Dense two-dimensional array of `T`.  Element `(x, y)` lives at flat
/// offset `x + width * y` of the backing vector.
pub struct Array2D<T> {
    width: usize,
    height: usize,
    data: Vec<T>,
}

impl<T> Array2D<T> {
    /// The dimensions agree with the backing storage.
    pub open spec fn wf(&self) -> bool {
        self.spec_data().len() == self.spec_width() * self.spec_height()
    }

    pub closed spec fn spec_width(&self) -> nat {
        self.width as nat
    }

    pub closed spec fn spec_height(&self) -> nat {
        self.height as nat
    }

    /// The flat row-major contents.
    pub closed spec fn spec_data(&self) -> Seq<T> {
        self.data@
    }

    /// The element at `(x, y)`.
    pub open spec fn at(&self, x: int, y: int) -> T {
        self.spec_data()[x + self.spec_width() * y]
    }

    /// Build an array from a flat row-major vector and a width; the height is
    /// the number of full rows in the vector.
    pub fn from_array(width: usize, data: Vec<T>) -> (r: Array2D<T>)
        requires
            1 <= width,
            data@.len() as int % width as int == 0,
        ensures
            r.wf(),
            r.spec_width() == width,
            r.spec_height() == data@.len() as int / width as int,
            r.spec_data() == data@,
    {
        let height: usize = data.len() / width;
        proof {
            vstd::arithmetic::div_mod::lemma_fundamental_div_mod(data@.len() as int, width as int);
        }
        Array2D { width, height, data }
    }

    /// Build a `width x height` array with every element equal to `value`.
    pub fn filled(width: usize, height: usize, value: T) -> (r: Array2D<T>)
        where T: Copy
        requires
            width * height <= usize::MAX,
        ensures
            r.wf(),
            r.spec_width() == width,
            r.spec_height() == height,
            r.spec_data().len() == width * height,
            forall|i: int| 0 <= i < width * height ==> r.spec_data()[i] == value,
    {
        let n: usize = width * height;
        let mut data: Vec<T> = Vec::new();
        let mut i: usize = 0;
        while i < n
            invariant
                i <= n,
                data@.len() == i,
                forall|j: int| 0 <= j < i ==> data@[j] == value,
            decreases n - i,
        {
            data.push(value);
            i = i + 1;
        }
        Array2D { width, height, data }
    }

    pub fn width(&self) -> (r: usize)
        ensures
            r == self.spec_width(),
    {
        self.width
    }

    pub fn height(&self) -> (r: usize)
        ensures
            r == self.spec_height(),
    {
        self.height
    }

    /// Total number of elements.
    pub fn len(&self) -> (r: usize)
        ensures
            r == self.spec_data().len(),
    {
        self.data.len()
    }

    /// The flat row-major backing storage.
    pub fn data(&self) -> (r: &Vec<T>)
        ensures
            r@ == self.spec_data(),
    {
        &self.data
    }

    /// Read the element at `(x, y)`.
    pub fn get(&self, x: usize, y: usize) -> (r: &T)
        requires
            self.wf(),
            x < self.spec_width(),
            y < self.spec_height(),
        ensures
            *r == self.at(x as int, y as int),
    {
        let n: usize = self.data.len();
        proof {
            lemma_row_major_index_in_range(
                self.spec_width() as int,
                self.spec_height() as int,
                x as int,
                y as int,
            );
        }
        &self.data[x + self.width * y]
    }

    /// Mutable access to the element at `(x, y)`.
    pub fn get_mut(&mut self, x: usize, y: usize) -> (r: &mut T)
        requires
            old(self).wf(),
            x < old(self).spec_width(),
            y < old(self).spec_height(),
        ensures
            *r == old(self).at(x as int, y as int),
            final(self).wf(),
            final(self).spec_width() == old(self).spec_width(),
            final(self).spec_height() == old(self).spec_height(),
            final(self).spec_data() == old(self).spec_data().update(
                x + old(self).spec_width() * y,
                *final(r),
            ),
    {
        let n: usize = self.data.len();
        proof {
            lemma_row_major_index_in_range(
                self.spec_width() as int,
                self.spec_height() as int,
                x as int,
                y as int,
            );
        }
        let idx: usize = x + self.width * y;
        &mut self.data[idx]
    }

    /// Write the element at `(x, y)`.
    pub fn set(&mut self, x: usize, y: usize, v: T)
        requires
            old(self).wf(),
            x < old(self).spec_width(),
            y < old(self).spec_height(),
        ensures
            final(self).wf(),
            final(self).spec_width() == old(self).spec_width(),
            final(self).spec_height() == old(self).spec_height(),
            final(self).spec_data() == old(self).spec_data().update(
                x + old(self).spec_width() * y,
                v,
            ),
    {
        let n: usize = self.data.len();
        proof {
            lemma_row_major_index_in_range(
                self.spec_width() as int,
                self.spec_height() as int,
                x as int,
                y as int,
            );
        }
        let idx: usize = x + self.width * y;
        self.data.set(idx, v);
    }
}

/// The row-major offset of an in-range coordinate pair is in range.
#[verifier::nonlinear]
pub proof fn lemma_row_major_index_in_range(w: int, h: int, x: int, y: int)
    requires
        0 <= x < w,
        0 <= y < h,
    ensures
        0 <= x + w * y < w * h,
{
}

/// Distinct in-range coordinate pairs have distinct row-major offsets.
#[verifier::nonlinear]
pub proof fn lemma_row_major_index_distinct(w: int, h: int, x1: int, y1: int, x2: int, y2: int)
    requires
        0 <= x1 < w,
        0 <= y1 < h,
        0 <= x2 < w,
        0 <= y2 < h,
        !(x1 == x2 && y1 == y2),
    ensures
        x1 + w * y1 != x2 + w * y2,
{
}

} // verus!
