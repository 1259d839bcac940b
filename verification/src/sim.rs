//! The simulation core: cell blocks, the kernel capability, and the
//! block-tiled grid that advances the world one generation per step.

use vstd::prelude::*;
use vstd::arithmetic::power2::{
    lemma_pow2_adds, lemma_pow2_pos, lemma_pow2_strictly_increases, lemma2_to64, pow2,
};
use crate::array2d::Array2D;

verus! {

/// Every cell of `s` is dead.
pub open spec fn all_false(s: Seq<bool>) -> bool {
    forall|i: int| 0 <= i < s.len() ==> !s[i]
}

/// The flat offset of cell `(x, y)` inside a block of side `side`; both
/// coordinates wrap around the block side.
pub open spec fn block_offset(side: nat, x: int, y: int) -> int {
    x % side as int + side * (y % side as int)
}

/// Compute `pow2(e)` as a machine word.
pub fn pow2_usize(e: usize) -> (r: usize)
    requires
        pow2(e as nat) <= usize::MAX,
    ensures
        r == pow2(e as nat),
{
    proof {
        lemma2_to64();
    }
    let mut r: usize = 1;
    let mut i: usize = 0;
    while i < e
        invariant
            i <= e,
            r == pow2(i as nat),
            pow2(e as nat) <= usize::MAX,
        decreases e - i,
    {
        proof {
            lemma_pow2_adds(i as nat, 1);
            lemma2_to64();
            if i + 1 < e {
                lemma_pow2_strictly_increases((i + 1) as nat, e as nat);
            }
        }
        r = r * 2;
        i = i + 1;
    }
    r
}

/// Square block of cells; the side length is dictated by the kernel that the
/// block is used with (`2^order` cells per side), and the cells are stored
/// row-major.
#[derive(Debug)]
pub struct Block {
    data: Vec<bool>,
}

impl View for Block {
    type V = Seq<bool>;

    closed spec fn view(&self) -> Seq<bool> {
        self.data@
    }
}

impl Clone for Block {
    fn clone(&self) -> (r: Block)
        ensures
            r@ == self@,
    {
        let data = self.data.clone();
        proof {
            assert(data@ =~= self.data@);
        }
        Block { data }
    }
}

/// What a kernel reports about the block it returned.
#[derive(Clone, Copy, Debug, PartialEq, Eq, Structural)]
pub enum KernelResult {
    /// An exact, new block has been returned.
    NewBlock,
    /// An approximate block has been returned; reserved for a future
    /// hierarchical-memoization path, accepted but never produced here.
    Approximate,
}

/// A transition rule: the block order together with the operation that maps a
/// 2x2 assembly of blocks to the successor of its central region.
///
/// `spec_exec` is the rule as a mathematical function; `exec` must return
/// exactly that, and may mutate internal state (e.g. caches) only in ways
/// that leave the rule itself unchanged.  This pins every implementation to a
/// deterministic, state-independent cell stream.
pub trait Kernel: Sized {
    /// Internal invariant of the kernel value.
    spec fn wf(&self) -> bool;

    /// The block order `k`; blocks are `2^k` cells per side.
    spec fn spec_order(&self) -> nat;

    /// The rule itself: the successor of the central `2^k x 2^k` region of
    /// the assembly `[nw ne / sw se]`, as a row-major sequence.
    spec fn spec_exec(&self, nw: Seq<bool>, ne: Seq<bool>, sw: Seq<bool>, se: Seq<bool>) -> Seq<
        bool,
    >;

    /// A well-formed kernel has a small positive order, so that every buffer
    /// the engine needs fits in a machine word, on 32-bit hosts included.
    proof fn lemma_wf_bounds(&self)
        requires
            self.wf(),
        ensures
            1 <= self.spec_order() <= 14,
    ;

    /// The rule always yields one full block.
    proof fn lemma_exec_len(&self, nw: Seq<bool>, ne: Seq<bool>, sw: Seq<bool>, se: Seq<bool>)
        requires
            self.wf(),
        ensures
            self.spec_exec(nw, ne, sw, se).len() == pow2(self.spec_order()) * pow2(
                self.spec_order(),
            ),
    ;

    fn order(&self) -> (r: usize)
        requires
            self.wf(),
        ensures
            r == self.spec_order(),
    ;

    /// Advance the central region of the assembly `[nw ne / sw se]` by one
    /// time step.
    fn exec(&mut self, nw: Block, ne: Block, sw: Block, se: Block) -> (r: (Block, KernelResult))
        requires
            old(self).wf(),
            nw@.len() == pow2(old(self).spec_order()) * pow2(old(self).spec_order()),
            ne@.len() == pow2(old(self).spec_order()) * pow2(old(self).spec_order()),
            sw@.len() == pow2(old(self).spec_order()) * pow2(old(self).spec_order()),
            se@.len() == pow2(old(self).spec_order()) * pow2(old(self).spec_order()),
        ensures
            final(self).wf(),
            final(self).spec_order() == old(self).spec_order(),
            forall|a: Seq<bool>, b: Seq<bool>, c: Seq<bool>, d: Seq<bool>|
                (#[trigger] final(self).spec_exec(a, b, c, d)) == old(self).spec_exec(a, b, c, d),
            r.0@ == old(self).spec_exec(nw@, ne@, sw@, se@),
    ;
}

/// `pow2(order) * pow2(order)` cells fit in a machine word for orders the
/// trait admits, as does the `2 pow2(order) x 2 pow2(order)` assembly.
pub proof fn lemma_block_len_bounds(order: nat)
    requires
        1 <= order <= 14,
    ensures
        pow2(order) >= 2,
        pow2(order) * pow2(order) == pow2(2 * order),
        4 * (pow2(order) * pow2(order)) == pow2(2 * order + 2),
        pow2(2 * order + 2) <= pow2(30),
        pow2(30) < usize::MAX,
{
    lemma_pow2_adds(order, order);
    lemma_pow2_adds(2 * order, 2);
    lemma2_to64();
    if order >= 2 {
        lemma_pow2_strictly_increases(1, order);
    }
    if 2 * order + 2 < 30 {
        lemma_pow2_strictly_increases(2 * order + 2, 30);
    }
}

impl Block {
    /// A zero-filled block sized for `ker`.
    pub fn zero<K: Kernel>(ker: &K) -> (r: Block)
        requires
            ker.wf(),
        ensures
            r@.len() == pow2(ker.spec_order()) * pow2(ker.spec_order()),
            all_false(r@),
    {
        let w = Block::width(ker);
        proof {
            ker.lemma_wf_bounds();
            lemma_block_len_bounds(ker.spec_order());
        }
        let n: usize = w * w;
        let mut data: Vec<bool> = Vec::new();
        let mut i: usize = 0;
        while i < n
            invariant
                i <= n,
                data@.len() == i,
                all_false(data@),
            decreases n - i,
        {
            data.push(false);
            i = i + 1;
        }
        Block { data }
    }

    /// A block sized for `ker` holding the given row-major cells.
    pub fn new<K: Kernel>(ker: &K, data: Vec<bool>) -> (r: Block)
        requires
            ker.wf(),
            data@.len() == pow2(ker.spec_order()) * pow2(ker.spec_order()),
        ensures
            r@ == data@,
    {
        Block { data }
    }

    /// Build a block directly from its row-major cells (internal; the public
    /// constructor checks the cell count against a kernel).
    pub(crate) fn from_data(data: Vec<bool>) -> (r: Block)
        ensures
            r@ == data@,
    {
        Block { data }
    }

    /// The side length of blocks used with `ker`: `2^order` cells.
    pub fn width<K: Kernel>(ker: &K) -> (r: usize)
        requires
            ker.wf(),
        ensures
            r == pow2(ker.spec_order()),
    {
        proof {
            ker.lemma_wf_bounds();
            lemma_block_len_bounds(ker.spec_order());
            lemma_pow2_strictly_increases(ker.spec_order(), 2 * ker.spec_order() + 2);
        }
        pow2_usize(ker.order())
    }

    /// Mutable view of the flat cell storage, for bulk seeding.
    pub fn data_mut(&mut self) -> (r: &mut Vec<bool>)
        ensures
            r@ == old(self)@,
            final(self)@ == final(r)@,
    {
        &mut self.data
    }

    /// The flat cell storage.
    pub fn data(&self) -> (r: &Vec<bool>)
        ensures
            r@ == self@,
    {
        &self.data
    }

    /// A zero-filled block with the same cell count as `other`.
    pub fn zeros_like(other: &Block) -> (r: Block)
        ensures
            r@.len() == other@.len(),
            all_false(r@),
    {
        let n: usize = other.data.len();
        let mut data: Vec<bool> = Vec::new();
        let mut i: usize = 0;
        while i < n
            invariant
                i <= n,
                data@.len() == i,
                all_false(data@),
            decreases n - i,
        {
            data.push(false);
            i = i + 1;
        }
        Block { data }
    }

    /// Flat offset of a cell within a block used with `ker`; the coordinates
    /// wrap around the block side.
    pub fn index<K: Kernel>(ker: &K, xy: (usize, usize)) -> (r: usize)
        requires
            ker.wf(),
        ensures
            r == block_offset(pow2(ker.spec_order()), xy.0 as int, xy.1 as int),
            r < pow2(ker.spec_order()) * pow2(ker.spec_order()),
    {
        let w = Block::width(ker);
        let (x, y) = xy;
        proof {
            lemma_pow2_pos(ker.spec_order());
            ker.lemma_wf_bounds();
            lemma_block_len_bounds(ker.spec_order());
            crate::array2d::lemma_row_major_index_in_range(
                pow2(ker.spec_order()) as int,
                pow2(ker.spec_order()) as int,
                x as int % pow2(ker.spec_order()) as int,
                y as int % pow2(ker.spec_order()) as int,
            );
        }
        x % w + w * (y % w)
    }

    /// Read the cell at `xy` (coordinates wrap around the block side).
    pub fn get<K: Kernel>(&self, ker: &K, xy: (usize, usize)) -> (r: bool)
        requires
            ker.wf(),
            self@.len() == pow2(ker.spec_order()) * pow2(ker.spec_order()),
        ensures
            r == self@[block_offset(pow2(ker.spec_order()), xy.0 as int, xy.1 as int)],
    {
        let idx: usize = Block::index(ker, xy);
        self.data[idx]
    }

    /// Write the cell at `xy` (coordinates wrap around the block side).
    pub fn set<K: Kernel>(&mut self, ker: &K, xy: (usize, usize), val: bool)
        requires
            ker.wf(),
            old(self)@.len() == pow2(ker.spec_order()) * pow2(ker.spec_order()),
        ensures
            final(self)@ == old(self)@.update(
                block_offset(pow2(ker.spec_order()), xy.0 as int, xy.1 as int),
                val,
            ),
    {
        let idx: usize = Block::index(ker, xy);
        self.data.set(idx, val);
    }
}

/// The block-tiled grid: two equal-shape buffers of blocks (`front` is read,
/// `back` is written), the kernel that advances them, and the offset phase.
///
/// The buffers hold one more row and column of blocks than the logical
/// viewport, to accommodate the half-block shift between phases.
pub struct Dense<K: Kernel> {
    back: Array2D<Block>,
    front: Array2D<Block>,
    kernel: K,
    zero_borders: bool,
}

impl<K: Kernel> Dense<K> {
    pub closed spec fn spec_kernel(&self) -> K {
        self.kernel
    }

    /// Which of the two half-block alignments is in force.
    pub closed spec fn spec_zero_borders(&self) -> bool {
        self.zero_borders
    }

    /// Cells per block side.
    pub open spec fn side(&self) -> nat {
        pow2(self.spec_kernel().spec_order())
    }

    /// Buffer width in blocks (one more than the logical viewport).
    pub closed spec fn blocks_w(&self) -> nat {
        self.front.spec_width()
    }

    /// Buffer height in blocks (one more than the logical viewport).
    pub closed spec fn blocks_h(&self) -> nat {
        self.front.spec_height()
    }

    /// The cells of the front-buffer block at `(x, y)`.
    pub closed spec fn front_at(&self, x: int, y: int) -> Seq<bool> {
        self.front.at(x, y)@
    }

    /// Observable width and height, in cells.
    pub open spec fn spec_pixel_w(&self) -> int {
        (self.blocks_w() - 1) * self.side()
    }

    pub open spec fn spec_pixel_h(&self) -> int {
        (self.blocks_h() - 1) * self.side()
    }

    pub closed spec fn wf(&self) -> bool {
        &&& self.kernel.wf()
        &&& self.front.wf()
        &&& self.back.wf()
        &&& self.front.spec_width() == self.back.spec_width()
        &&& self.front.spec_height() == self.back.spec_height()
        &&& self.front.spec_width() >= 1
        &&& self.front.spec_height() >= 1
        &&& self.front.spec_width() * pow2(self.kernel.spec_order()) <= usize::MAX
        &&& self.front.spec_height() * pow2(self.kernel.spec_order()) <= usize::MAX
        &&& forall|i: int|
            0 <= i < self.front.spec_data().len() ==> (#[trigger] self.front.spec_data()[i])@.len()
                == pow2(self.kernel.spec_order()) * pow2(self.kernel.spec_order())
        &&& forall|i: int|
            0 <= i < self.back.spec_data().len() ==> (#[trigger] self.back.spec_data()[i])@.len()
                == pow2(self.kernel.spec_order()) * pow2(self.kernel.spec_order())
    }

    /// The all-dead block, as a sequence.
    pub open spec fn zero_block(&self) -> Seq<bool> {
        Seq::new(self.side() * self.side(), |i: int| false)
    }

    /// The front-buffer block at `(x, y)` under the fixed-zero boundary: out
    /// of range reads yield an all-dead block.
    pub open spec fn source_block(&self, x: int, y: int) -> Seq<bool> {
        if 0 <= x < self.blocks_w() && 0 <= y < self.blocks_h() {
            self.front_at(x, y)
        } else {
            self.zero_block()
        }
    }

    /// What one step writes at destination block `(i, j)`: the kernel applied
    /// to the 2x2 assembly of source blocks selected by the current phase.
    pub open spec fn step_result(&self, i: int, j: int) -> Seq<bool> {
        let sx = if self.spec_zero_borders() {
            i - 1
        } else {
            i
        };
        let sy = if self.spec_zero_borders() {
            j - 1
        } else {
            j
        };
        self.spec_kernel().spec_exec(
            self.source_block(sx, sy),
            self.source_block(sx + 1, sy),
            self.source_block(sx, sy + 1),
            self.source_block(sx + 1, sy + 1),
        )
    }

    /// How far the pixel stream is shifted against the block grid in the
    /// current phase: half a block side in the shifted phase, else nothing.
    pub open spec fn phase_offset(&self) -> int {
        if self.spec_zero_borders() {
            0int
        } else {
            self.side() as int / 2
        }
    }

    /// The cell that pixel `(px, py)` denotes: the pixel stream is offset by
    /// the current phase against the block grid, then decomposed into a block
    /// index and an intra-block offset.
    pub open spec fn spec_pixel(&self, px: int, py: int) -> bool {
        let sx = px + self.phase_offset();
        let sy = py + self.phase_offset();
        self.front_at(sx / self.side() as int, sy / self.side() as int)[block_offset(
            self.side(),
            sx,
            sy,
        )]
    }

    /// In-range front blocks hold one full block of cells.
    pub proof fn lemma_front_block_len(&self, x: int, y: int)
        requires
            self.wf(),
            0 <= x < self.blocks_w(),
            0 <= y < self.blocks_h(),
        ensures
            self.front_at(x, y).len() == self.side() * self.side(),
    {
        crate::array2d::lemma_row_major_index_in_range(
            self.blocks_w() as int,
            self.blocks_h() as int,
            x,
            y,
        );
        assert(self.front_at(x, y) == self.front.spec_data()[x + self.front.spec_width() * y]@);
    }

    /// Source blocks (boundary included) hold one full block of cells.
    pub proof fn lemma_source_block_len(&self, x: int, y: int)
        requires
            self.wf(),
        ensures
            self.source_block(x, y).len() == self.side() * self.side(),
    {
        if 0 <= x < self.blocks_w() && 0 <= y < self.blocks_h() {
            self.lemma_front_block_len(x, y);
        }
    }

    /// Build a grid with a logical viewport of `width x height` blocks, all
    /// cells dead, in the unshifted phase.
    pub fn new(kernel: K, width: usize, height: usize) -> (r: Dense<K>)
        requires
            kernel.wf(),
            (width + 1) * (height + 1) <= usize::MAX,
            (width + 1) * pow2(kernel.spec_order()) <= usize::MAX,
            (height + 1) * pow2(kernel.spec_order()) <= usize::MAX,
        ensures
            r.wf(),
            r.spec_kernel() == kernel,
            r.spec_zero_borders() == true,
            r.blocks_w() == width + 1,
            r.blocks_h() == height + 1,
            forall|x: int, y: int|
                0 <= x < r.blocks_w() && 0 <= y < r.blocks_h() ==> all_false(
                    #[trigger] r.front_at(x, y),
                ),
    {
        proof {
            vstd::arithmetic::mul::lemma_mul_inequality(
                1,
                (height + 1) as int,
                (width + 1) as int,
            );
            vstd::arithmetic::mul::lemma_mul_inequality(1, (width + 1) as int, (height + 1) as int);
            vstd::arithmetic::mul::lemma_mul_is_commutative(
                (width + 1) as int,
                (height + 1) as int,
            );
        }
        let wb: usize = width + 1;
        let hb: usize = height + 1;
        let n: usize = wb * hb;
        let mut frontv: Vec<Block> = Vec::new();
        let mut backv: Vec<Block> = Vec::new();
        let mut i: usize = 0;
        while i < n
            invariant
                i <= n,
                kernel.wf(),
                frontv@.len() == i,
                backv@.len() == i,
                forall|j: int|
                    0 <= j < i ==> (#[trigger] frontv@[j])@.len() == pow2(kernel.spec_order())
                        * pow2(kernel.spec_order()) && all_false(frontv@[j]@),
                forall|j: int|
                    0 <= j < i ==> (#[trigger] backv@[j])@.len() == pow2(kernel.spec_order())
                        * pow2(kernel.spec_order()) && all_false(backv@[j]@),
            decreases n - i,
        {
            frontv.push(Block::zero(&kernel));
            backv.push(Block::zero(&kernel));
            i = i + 1;
        }
        proof {
            vstd::arithmetic::div_mod::lemma_mod_multiples_basic(hb as int, wb as int);
            vstd::arithmetic::div_mod::lemma_div_by_multiple(hb as int, wb as int);
        }
        let front = Array2D::from_array(wb, frontv);
        let back = Array2D::from_array(wb, backv);
        let r = Dense { back, front, kernel, zero_borders: true };
        proof {
            assert forall|x: int, y: int|
                0 <= x < r.blocks_w() && 0 <= y < r.blocks_h() implies all_false(
                #[trigger] r.front_at(x, y),
            ) by {
                crate::array2d::lemma_row_major_index_in_range(
                    r.blocks_w() as int,
                    r.blocks_h() as int,
                    x,
                    y,
                );
            }
        }
        r
    }

    /// Advance the world one generation: every destination block of the back
    /// buffer receives the kernel's output for the 2x2 assembly of front
    /// blocks selected by the current phase, then the buffers swap and the
    /// phase toggles.
    pub fn step(&mut self)
        requires
            old(self).wf(),
        ensures
            final(self).wf(),
            final(self).blocks_w() == old(self).blocks_w(),
            final(self).blocks_h() == old(self).blocks_h(),
            final(self).spec_kernel().spec_order() == old(self).spec_kernel().spec_order(),
            forall|a: Seq<bool>, b: Seq<bool>, c: Seq<bool>, d: Seq<bool>|
                (#[trigger] final(self).spec_kernel().spec_exec(a, b, c, d)) == old(
                    self,
                ).spec_kernel().spec_exec(a, b, c, d),
            final(self).spec_zero_borders() == !old(self).spec_zero_borders(),
            forall|i: int, j: int|
                0 <= i < old(self).blocks_w() && 0 <= j < old(self).blocks_h() ==> (
                #[trigger] final(self).front_at(i, j)) == old(self).step_result(i, j),
    {
        let ghost g0 = *old(self);
        let wb: usize = self.front.width();
        let hb: usize = self.front.height();
        proof {
            self.kernel.lemma_wf_bounds();
            lemma_block_len_bounds(self.kernel.spec_order());
            vstd::arithmetic::mul::lemma_mul_inequality(
                2,
                pow2(self.kernel.spec_order()) as int,
                wb as int,
            );
            vstd::arithmetic::mul::lemma_mul_inequality(
                2,
                pow2(self.kernel.spec_order()) as int,
                hb as int,
            );
            vstd::arithmetic::mul::lemma_mul_is_commutative(
                wb as int,
                pow2(self.kernel.spec_order()) as int,
            );
            vstd::arithmetic::mul::lemma_mul_is_commutative(
                hb as int,
                pow2(self.kernel.spec_order()) as int,
            );
        }
        let mut i: usize = 0;
        while i < wb
            invariant
                i <= wb,
                wb == g0.blocks_w(),
                hb == g0.blocks_h(),
                1 <= wb,
                1 <= hb,
                2 * wb <= usize::MAX,
                2 * hb <= usize::MAX,
                self.front == g0.front,
                self.zero_borders == g0.spec_zero_borders(),
                g0.wf(),
                self.kernel.wf(),
                self.kernel.spec_order() == g0.spec_kernel().spec_order(),
                forall|a: Seq<bool>, b: Seq<bool>, c: Seq<bool>, d: Seq<bool>|
                    (#[trigger] self.kernel.spec_exec(a, b, c, d)) == g0.spec_kernel().spec_exec(
                        a,
                        b,
                        c,
                        d,
                    ),
                self.back.wf(),
                self.back.spec_width() == wb,
                self.back.spec_height() == hb,
                forall|t: int|
                    0 <= t < self.back.spec_data().len() ==> (
                    #[trigger] self.back.spec_data()[t])@.len() == pow2(g0.spec_kernel().spec_order())
                        * pow2(g0.spec_kernel().spec_order()),
                forall|x: int, y: int|
                    0 <= x < i && 0 <= y < hb ==> (#[trigger] self.back.at(x, y))@
                        == g0.step_result(x, y),
            decreases wb - i,
        {
            let mut j: usize = 0;
            while j < hb
                invariant
                    i < wb,
                    j <= hb,
                    wb == g0.blocks_w(),
                    hb == g0.blocks_h(),
                    1 <= wb,
                    1 <= hb,
                    2 * wb <= usize::MAX,
                    2 * hb <= usize::MAX,
                    self.front == g0.front,
                    self.zero_borders == g0.spec_zero_borders(),
                    g0.wf(),
                    self.kernel.wf(),
                    self.kernel.spec_order() == g0.spec_kernel().spec_order(),
                    forall|a: Seq<bool>, b: Seq<bool>, c: Seq<bool>, d: Seq<bool>|
                        (#[trigger] self.kernel.spec_exec(a, b, c, d)) == g0.spec_kernel(
                        ).spec_exec(a, b, c, d),
                    self.back.wf(),
                    self.back.spec_width() == wb,
                    self.back.spec_height() == hb,
                    forall|t: int|
                        0 <= t < self.back.spec_data().len() ==> (
                        #[trigger] self.back.spec_data()[t])@.len() == pow2(
                            g0.spec_kernel().spec_order(),
                        ) * pow2(g0.spec_kernel().spec_order()),
                    forall|x: int, y: int|
                        0 <= x < i && 0 <= y < hb ==> (#[trigger] self.back.at(x, y))@
                            == g0.step_result(x, y),
                    forall|y: int|
                        0 <= y < j ==> (#[trigger] self.back.at(i as int, y))@ == g0.step_result(
                            i as int,
                            y,
                        ),
                decreases hb - j,
            {
                proof {
                    g0.lemma_wf_block_facts();
                }
                let (sx, sy): (i64, i64) = if self.zero_borders {
                    (i as i64 - 1, j as i64 - 1)
                } else {
                    (i as i64, j as i64)
                };
                proof {
                    assert(self.front.spec_data()[0]@ == g0.front_at(0, 0));
                    assert(g0.front_at(0, 0).len() == g0.side() * g0.side());
                }
                let b00 = get_block_zero_borders(&self.front, sx, sy);
                let b10 = get_block_zero_borders(&self.front, sx + 1, sy);
                let b01 = get_block_zero_borders(&self.front, sx, sy + 1);
                let b11 = get_block_zero_borders(&self.front, sx + 1, sy + 1);
                proof {
                    assert(b00@ =~= g0.source_block(sx as int, sy as int));
                    assert(b10@ =~= g0.source_block(sx as int + 1, sy as int));
                    assert(b01@ =~= g0.source_block(sx as int, sy as int + 1));
                    assert(b11@ =~= g0.source_block(sx as int + 1, sy as int + 1));
                }
                let ghost (s00, s10, s01, s11) = (b00@, b10@, b01@, b11@);
                let (out, _tag) = self.kernel.exec(b00, b10, b01, b11);
                proof {
                    self.kernel.lemma_exec_len(s00, s10, s01, s11);
                    assert(out@ == g0.step_result(i as int, j as int));
                    assert(out@.len() == pow2(g0.spec_kernel().spec_order()) * pow2(
                        g0.spec_kernel().spec_order(),
                    ));
                }
                let ghost back0 = self.back;
                self.back.set(i, j, out);
                proof {
                    let ghost upd = i as int + wb as int * (j as int);
                    assert(self.back.spec_data() == back0.spec_data().update(upd, out));
                    crate::array2d::lemma_row_major_index_in_range(
                        wb as int,
                        hb as int,
                        i as int,
                        j as int,
                    );
                    assert forall|x: int, y: int| 0 <= x < wb && 0 <= y < hb && !(x == i && y
                        == j) implies self.back.at(x, y) == back0.at(x, y) by {
                        crate::array2d::lemma_row_major_index_in_range(wb as int, hb as int, x, y);
                        crate::array2d::lemma_row_major_index_distinct(
                            wb as int,
                            hb as int,
                            x,
                            y,
                            i as int,
                            j as int,
                        );
                        assert(x + wb as int * y != upd);
                        assert(self.back.spec_data()[x + wb as int * y] == back0.spec_data()[x
                            + wb as int * y]);
                    }
                    assert(self.back.at(i as int, j as int) == out);
                    assert forall|x: int, y: int| 0 <= x < i && 0 <= y < hb implies (
                    #[trigger] self.back.at(x, y))@ == g0.step_result(x, y) by {
                        assert(back0.at(x, y)@ == g0.step_result(x, y));
                        assert(self.back.at(x, y) == back0.at(x, y));
                    }
                    assert forall|y: int| 0 <= y < j + 1 implies (#[trigger] self.back.at(
                        i as int,
                        y,
                    ))@ == g0.step_result(i as int, y) by {
                        if y < j {
                            assert(back0.at(i as int, y)@ == g0.step_result(i as int, y));
                            assert(self.back.at(i as int, y) == back0.at(i as int, y));
                        } else {
                            assert(self.back.at(i as int, y) == out);
                        }
                    }
                    assert forall|t: int| 0 <= t < self.back.spec_data().len() implies (
                    #[trigger] self.back.spec_data()[t])@.len() == pow2(
                        g0.spec_kernel().spec_order(),
                    ) * pow2(g0.spec_kernel().spec_order()) by {
                        if t == upd {
                            assert(self.back.spec_data()[t] == out);
                        } else {
                            assert(self.back.spec_data()[t] == back0.spec_data()[t]);
                        }
                    }
                }
                j = j + 1;
            }
            i = i + 1;
        }
        core::mem::swap(&mut self.back, &mut self.front);
        self.zero_borders = !self.zero_borders;
        proof {
            g0.lemma_wf_block_facts();
        }
    }

    /// Observable dimensions in cells: the logical viewport, one block row
    /// and column less than the buffers.
    pub fn pixel_dims(&self) -> (r: (usize, usize))
        requires
            self.wf(),
        ensures
            r.0 == self.spec_pixel_w(),
            r.1 == self.spec_pixel_h(),
    {
        proof {
            self.lemma_wf_block_facts();
            vstd::arithmetic::mul::lemma_mul_inequality(
                (self.blocks_w() - 1) as int,
                self.blocks_w() as int,
                self.side() as int,
            );
            vstd::arithmetic::mul::lemma_mul_inequality(
                (self.blocks_h() - 1) as int,
                self.blocks_h() as int,
                self.side() as int,
            );
        }
        let w = Block::width(&self.kernel);
        ((self.front.width() - 1) * w, (self.front.height() - 1) * w)
    }

    /// Shift a pixel coordinate pair by the current phase offset; the result
    /// still lies inside the block buffers.
    fn index_block_pixel(&self, index: (usize, usize)) -> (r: (usize, usize))
        requires
            self.wf(),
            index.0 < self.spec_pixel_w(),
            index.1 < self.spec_pixel_h(),
        ensures
            r.0 == index.0 + self.phase_offset(),
            r.1 == index.1 + self.phase_offset(),
            r.0 < self.blocks_w() * self.side(),
            r.1 < self.blocks_h() * self.side(),
    {
        proof {
            self.lemma_wf_block_facts();
            lemma_mul_minus_one(self.blocks_w() as int, self.side() as int);
            lemma_mul_minus_one(self.blocks_h() as int, self.side() as int);
        }
        let (mut x, mut y) = index;
        if !self.zero_borders {
            let w = Block::width(&self.kernel);
            x = x + w / 2;
            y = y + w / 2;
        }
        (x, y)
    }

    /// Read the cell that pixel `index` denotes in the current phase.
    pub fn get_pixel(&self, index: (usize, usize)) -> (r: bool)
        requires
            self.wf(),
            index.0 < self.spec_pixel_w(),
            index.1 < self.spec_pixel_h(),
        ensures
            r == self.spec_pixel(index.0 as int, index.1 as int),
    {
        let (sx, sy) = self.index_block_pixel(index);
        let w = Block::width(&self.kernel);
        proof {
            self.lemma_wf_block_facts();
            vstd::arithmetic::mul::lemma_mul_is_commutative(
                self.blocks_w() as int,
                self.side() as int,
            );
            vstd::arithmetic::mul::lemma_mul_is_commutative(
                self.blocks_h() as int,
                self.side() as int,
            );
            vstd::arithmetic::div_mod::lemma_multiply_divide_lt(
                sx as int,
                self.side() as int,
                self.blocks_w() as int,
            );
            vstd::arithmetic::div_mod::lemma_multiply_divide_lt(
                sy as int,
                self.side() as int,
                self.blocks_h() as int,
            );
        }
        let bx: usize = sx / w;
        let by: usize = sy / w;
        proof {
            self.lemma_front_block_len(bx as int, by as int);
        }
        let b = self.front.get(bx, by);
        b.get(&self.kernel, (sx, sy))
    }

    /// Write the cell that pixel `index` denotes in the current phase; every
    /// other pixel keeps its value, and nothing else about the grid changes.
    pub fn set_pixel(&mut self, index: (usize, usize), val: bool)
        requires
            old(self).wf(),
            index.0 < old(self).spec_pixel_w(),
            index.1 < old(self).spec_pixel_h(),
        ensures
            final(self).wf(),
            final(self).spec_kernel() == old(self).spec_kernel(),
            final(self).spec_zero_borders() == old(self).spec_zero_borders(),
            final(self).blocks_w() == old(self).blocks_w(),
            final(self).blocks_h() == old(self).blocks_h(),
            final(self).spec_pixel(index.0 as int, index.1 as int) == val,
            forall|qx: int, qy: int|
                0 <= qx < old(self).spec_pixel_w() && 0 <= qy < old(self).spec_pixel_h() && !(qx
                    == index.0 && qy == index.1) ==> final(self).spec_pixel(qx, qy) == old(
                    self,
                ).spec_pixel(qx, qy),
    {
        let ghost g0 = *old(self);
        let (sx, sy) = self.index_block_pixel(index);
        let w = Block::width(&self.kernel);
        proof {
            self.lemma_wf_block_facts();
            vstd::arithmetic::mul::lemma_mul_is_commutative(
                self.blocks_w() as int,
                self.side() as int,
            );
            vstd::arithmetic::mul::lemma_mul_is_commutative(
                self.blocks_h() as int,
                self.side() as int,
            );
            vstd::arithmetic::div_mod::lemma_multiply_divide_lt(
                sx as int,
                self.side() as int,
                self.blocks_w() as int,
            );
            vstd::arithmetic::div_mod::lemma_multiply_divide_lt(
                sy as int,
                self.side() as int,
                self.blocks_h() as int,
            );
        }
        let bx: usize = sx / w;
        let by: usize = sy / w;
        proof {
            self.lemma_front_block_len(bx as int, by as int);
        }
        let ghost front0 = self.front;
        let blk = self.front.get_mut(bx, by);
        blk.set(&self.kernel, (sx, sy), val);
        proof {
            let ghost s = g0.side() as int;
            let ghost wb = g0.blocks_w() as int;
            let ghost hb = g0.blocks_h() as int;
            let ghost upd = bx as int + wb * (by as int);
            let ghost newb = front0.spec_data()[upd]@.update(
                block_offset(g0.side(), sx as int, sy as int),
                val,
            );
            crate::array2d::lemma_row_major_index_in_range(wb, hb, bx as int, by as int);
            assert(self.front.spec_data() == front0.spec_data().update(upd, *final(blk)));
            assert((*final(blk))@ == newb);
            vstd::arithmetic::div_mod::lemma_mod_bound(sx as int, s);
            vstd::arithmetic::div_mod::lemma_mod_bound(sy as int, s);
            crate::array2d::lemma_row_major_index_in_range(s, s, sx as int % s, sy as int % s);
            assert(final(self).spec_pixel(index.0 as int, index.1 as int) == val);
            assert forall|t: int| 0 <= t < self.front.spec_data().len() implies (
            #[trigger] self.front.spec_data()[t])@.len() == g0.side() * g0.side() by {
                if t == upd {
                    assert(self.front.spec_data()[t]@ == newb);
                } else {
                    assert(self.front.spec_data()[t] == front0.spec_data()[t]);
                }
            }
            assert forall|qx: int, qy: int|
                0 <= qx < g0.spec_pixel_w() && 0 <= qy < g0.spec_pixel_h() && !(qx == index.0 && qy
                    == index.1) implies final(self).spec_pixel(qx, qy) == g0.spec_pixel(
                qx,
                qy,
            ) by {
                let off = g0.phase_offset();
                let tx = qx + off;
                let ty = qy + off;
                lemma_mul_minus_one(wb, s);
                lemma_mul_minus_one(hb, s);
                vstd::arithmetic::div_mod::lemma_multiply_divide_lt(tx, s, wb);
                vstd::arithmetic::div_mod::lemma_multiply_divide_lt(ty, s, hb);
                vstd::arithmetic::mul::lemma_mul_is_commutative(wb, s);
                vstd::arithmetic::mul::lemma_mul_is_commutative(hb, s);
                vstd::arithmetic::div_mod::lemma_div_pos_is_pos(tx, s);
                vstd::arithmetic::div_mod::lemma_div_pos_is_pos(ty, s);
                lemma_cell_decode_injective(s, tx, ty, sx as int, sy as int);
                crate::array2d::lemma_row_major_index_in_range(wb, hb, tx / s, ty / s);
                if tx / s == bx as int && ty / s == by as int {
                    assert(block_offset(g0.side(), tx, ty) != block_offset(
                        g0.side(),
                        sx as int,
                        sy as int,
                    ));
                    vstd::arithmetic::div_mod::lemma_mod_bound(tx, s);
                    vstd::arithmetic::div_mod::lemma_mod_bound(ty, s);
                    crate::array2d::lemma_row_major_index_in_range(s, s, tx % s, ty % s);
                    assert(self.front.spec_data()[tx / s + wb * (ty / s)]@[block_offset(
                        g0.side(),
                        tx,
                        ty,
                    )] == front0.spec_data()[tx / s + wb * (ty / s)]@[block_offset(
                        g0.side(),
                        tx,
                        ty,
                    )]);
                } else {
                    crate::array2d::lemma_row_major_index_distinct(
                        wb,
                        hb,
                        tx / s,
                        ty / s,
                        bx as int,
                        by as int,
                    );
                    assert(self.front.spec_data()[tx / s + wb * (ty / s)] == front0.spec_data()[tx
                        / s + wb * (ty / s)]);
                }
            }
        }
    }

    /// The kernel that drives this grid.
    pub fn kernel(&self) -> (r: &K)
        ensures
            r == self.spec_kernel(),
    {
        &self.kernel
    }

    /// All the length facts of a well-formed grid that proofs below need.
    pub proof fn lemma_wf_block_facts(&self)
        requires
            self.wf(),
        ensures
            self.spec_kernel().wf(),
            1 <= self.spec_kernel().spec_order() <= 14,
            self.side() >= 2,
            self.blocks_w() >= 1,
            self.blocks_h() >= 1,
            self.blocks_w() * self.side() <= usize::MAX,
            self.blocks_h() * self.side() <= usize::MAX,
            forall|x: int, y: int|
                0 <= x < self.blocks_w() && 0 <= y < self.blocks_h() ==> (
                #[trigger] self.front_at(x, y)).len() == self.side() * self.side(),
    {
        self.kernel.lemma_wf_bounds();
        lemma_block_len_bounds(self.spec_kernel().spec_order());
        assert forall|x: int, y: int|
            0 <= x < self.blocks_w() && 0 <= y < self.blocks_h() implies (#[trigger] self.front_at(
            x,
            y,
        )).len() == self.side() * self.side() by {
            self.lemma_front_block_len(x, y);
        }
    }
}

/// Identity on empty: a kernel that maps all-dead assemblies to all-dead
/// blocks keeps an all-dead grid all-dead across a step — so, by induction
/// over `step`'s postcondition, indefinitely.
pub proof fn lemma_empty_grid_step<K: Kernel>(g: &Dense<K>)
    requires
        g.wf(),
        forall|x: int, y: int|
            0 <= x < g.blocks_w() && 0 <= y < g.blocks_h() ==> all_false(
                #[trigger] g.front_at(x, y),
            ),
        forall|a: Seq<bool>, b: Seq<bool>, c: Seq<bool>, d: Seq<bool>|
            a.len() == g.side() * g.side() && b.len() == g.side() * g.side() && c.len() == g.side()
                * g.side() && d.len() == g.side() * g.side() && all_false(a) && all_false(b)
                && all_false(c) && all_false(d) ==> all_false(
                #[trigger] g.spec_kernel().spec_exec(a, b, c, d),
            ),
    ensures
        forall|i: int, j: int| all_false(#[trigger] g.step_result(i, j)),
{
    assert forall|i: int, j: int| all_false(#[trigger] g.step_result(i, j)) by {
        let sx = if g.spec_zero_borders() {
            i - 1
        } else {
            i
        };
        let sy = if g.spec_zero_borders() {
            j - 1
        } else {
            j
        };
        g.lemma_source_block_len(sx, sy);
        g.lemma_source_block_len(sx + 1, sy);
        g.lemma_source_block_len(sx, sy + 1);
        g.lemma_source_block_len(sx + 1, sy + 1);
        assert(all_false(g.source_block(sx, sy)));
        assert(all_false(g.source_block(sx + 1, sy)));
        assert(all_false(g.source_block(sx, sy + 1)));
        assert(all_false(g.source_block(sx + 1, sy + 1)));
    }
}

/// Determinism: two grids whose observable states agree — same dimensions,
/// same phase, same front cells — and whose kernels realize the same rule,
/// produce identical results for every destination block of the next step
/// (and hence, by induction over `step`'s postcondition, identical pixel
/// streams forever).
pub proof fn lemma_step_deterministic<KA: Kernel, KB: Kernel>(a: &Dense<KA>, b: &Dense<KB>)
    requires
        a.wf(),
        b.wf(),
        a.blocks_w() == b.blocks_w(),
        a.blocks_h() == b.blocks_h(),
        a.spec_zero_borders() == b.spec_zero_borders(),
        a.spec_kernel().spec_order() == b.spec_kernel().spec_order(),
        forall|p: Seq<bool>, q: Seq<bool>, r: Seq<bool>, s: Seq<bool>|
            (#[trigger] a.spec_kernel().spec_exec(p, q, r, s)) == b.spec_kernel().spec_exec(
                p,
                q,
                r,
                s,
            ),
        forall|x: int, y: int|
            0 <= x < a.blocks_w() && 0 <= y < a.blocks_h() ==> (#[trigger] a.front_at(x, y))
                == b.front_at(x, y),
    ensures
        forall|i: int, j: int| (#[trigger] a.step_result(i, j)) == b.step_result(i, j),
        forall|px: int, py: int|
            0 <= px < a.spec_pixel_w() && 0 <= py < a.spec_pixel_h() ==> (#[trigger] a.spec_pixel(
                px,
                py,
            )) == b.spec_pixel(px, py),
{
    assert forall|x: int, y: int| (#[trigger] a.source_block(x, y)) == b.source_block(x, y) by {
        if !(0 <= x < a.blocks_w() && 0 <= y < a.blocks_h()) {
            assert(a.zero_block() =~= b.zero_block());
        }
    }
    assert forall|px: int, py: int|
        0 <= px < a.spec_pixel_w() && 0 <= py < a.spec_pixel_h() implies (#[trigger] a.spec_pixel(
        px,
        py,
    )) == b.spec_pixel(px, py) by {
        a.lemma_wf_block_facts();
        let s = a.side() as int;
        let tx = px + a.phase_offset();
        let ty = py + a.phase_offset();
        lemma_mul_minus_one(a.blocks_w() as int, s);
        lemma_mul_minus_one(a.blocks_h() as int, s);
        vstd::arithmetic::mul::lemma_mul_is_commutative(a.blocks_w() as int, s);
        vstd::arithmetic::mul::lemma_mul_is_commutative(a.blocks_h() as int, s);
        vstd::arithmetic::div_mod::lemma_multiply_divide_lt(tx, s, a.blocks_w() as int);
        vstd::arithmetic::div_mod::lemma_multiply_divide_lt(ty, s, a.blocks_h() as int);
        vstd::arithmetic::div_mod::lemma_div_pos_is_pos(tx, s);
        vstd::arithmetic::div_mod::lemma_div_pos_is_pos(ty, s);
        assert(a.front_at(tx / s, ty / s) == b.front_at(tx / s, ty / s));
    }
}

/// Boundary correctness: after a step, every in-range pixel reads exactly the
/// cell that the kernel produced for it under the fixed-zero boundary — the
/// cell at the pixel's intra-block offset in the step result of the block
/// that contains the pixel in the new phase.
pub proof fn lemma_step_pixel<K: Kernel>(pre: &Dense<K>, post: &Dense<K>, px: int, py: int)
    requires
        pre.wf(),
        post.wf(),
        post.blocks_w() == pre.blocks_w(),
        post.blocks_h() == pre.blocks_h(),
        post.spec_kernel().spec_order() == pre.spec_kernel().spec_order(),
        post.spec_zero_borders() == !pre.spec_zero_borders(),
        forall|i: int, j: int|
            0 <= i < pre.blocks_w() && 0 <= j < pre.blocks_h() ==> (#[trigger] post.front_at(i, j))
                == pre.step_result(i, j),
        0 <= px < post.spec_pixel_w(),
        0 <= py < post.spec_pixel_h(),
    ensures
        post.spec_pixel(px, py) == pre.step_result(
            (px + post.phase_offset()) / post.side() as int,
            (py + post.phase_offset()) / post.side() as int,
        )[block_offset(post.side(), px + post.phase_offset(), py + post.phase_offset())],
{
    post.lemma_wf_block_facts();
    let s = post.side() as int;
    let tx = px + post.phase_offset();
    let ty = py + post.phase_offset();
    lemma_mul_minus_one(post.blocks_w() as int, s);
    lemma_mul_minus_one(post.blocks_h() as int, s);
    vstd::arithmetic::mul::lemma_mul_is_commutative(post.blocks_w() as int, s);
    vstd::arithmetic::mul::lemma_mul_is_commutative(post.blocks_h() as int, s);
    vstd::arithmetic::div_mod::lemma_multiply_divide_lt(tx, s, post.blocks_w() as int);
    vstd::arithmetic::div_mod::lemma_multiply_divide_lt(ty, s, post.blocks_h() as int);
    vstd::arithmetic::div_mod::lemma_div_pos_is_pos(tx, s);
    vstd::arithmetic::div_mod::lemma_div_pos_is_pos(ty, s);
    assert(post.front_at(tx / s, ty / s) == pre.step_result(tx / s, ty / s));
}

/// `(a - 1) * b + b == a * b`.
#[verifier::nonlinear]
proof fn lemma_mul_minus_one(a: int, b: int)
    ensures
        (a - 1) * b + b == a * b,
{
}

/// Distinct non-negative cell coordinates decode to distinct (block index,
/// intra-block offset) pairs: the decode loses no information.
pub proof fn lemma_cell_decode_injective(s: int, x1: int, y1: int, x2: int, y2: int)
    requires
        s >= 1,
        0 <= x1,
        0 <= y1,
        0 <= x2,
        0 <= y2,
        !(x1 == x2 && y1 == y2),
    ensures
        x1 / s != x2 / s || y1 / s != y2 / s || block_offset(s as nat, x1, y1) != block_offset(
            s as nat,
            x2,
            y2,
        ),
{
    if x1 / s == x2 / s && y1 / s == y2 / s && block_offset(s as nat, x1, y1) == block_offset(
        s as nat,
        x2,
        y2,
    ) {
        vstd::arithmetic::div_mod::lemma_mod_bound(x1, s);
        vstd::arithmetic::div_mod::lemma_mod_bound(y1, s);
        vstd::arithmetic::div_mod::lemma_mod_bound(x2, s);
        vstd::arithmetic::div_mod::lemma_mod_bound(y2, s);
        let o1 = block_offset(s as nat, x1, y1);
        let o2 = block_offset(s as nat, x2, y2);
        assert(o1 == (y1 % s) * s + (x1 % s)) by {
            vstd::arithmetic::mul::lemma_mul_is_commutative(s, y1 % s);
        }
        assert(o2 == (y2 % s) * s + (x2 % s)) by {
            vstd::arithmetic::mul::lemma_mul_is_commutative(s, y2 % s);
        }
        vstd::arithmetic::div_mod::lemma_fundamental_div_mod_converse_mod(o1, s, y1 % s, x1 % s);
        vstd::arithmetic::div_mod::lemma_fundamental_div_mod_converse_div(o1, s, y1 % s, x1 % s);
        vstd::arithmetic::div_mod::lemma_fundamental_div_mod_converse_mod(o2, s, y2 % s, x2 % s);
        vstd::arithmetic::div_mod::lemma_fundamental_div_mod_converse_div(o2, s, y2 % s, x2 % s);
        assert(x1 % s == x2 % s && y1 % s == y2 % s);
        vstd::arithmetic::div_mod::lemma_fundamental_div_mod(x1, s);
        vstd::arithmetic::div_mod::lemma_fundamental_div_mod(x2, s);
        vstd::arithmetic::div_mod::lemma_fundamental_div_mod(y1, s);
        vstd::arithmetic::div_mod::lemma_fundamental_div_mod(y2, s);
        assert(false);
    }
}

/// Read the block at `(x, y)` from `arr` under a fixed-zero boundary: any
/// coordinate outside the buffer yields a freshly zero-filled block.
fn get_block_zero_borders(arr: &Array2D<Block>, x: i64, y: i64) -> (r: Block)
    requires
        arr.wf(),
        arr.spec_width() >= 1,
        arr.spec_height() >= 1,
        arr.spec_width() <= i64::MAX,
        arr.spec_height() <= i64::MAX,
        forall|i: int|
            0 <= i < arr.spec_data().len() ==> (#[trigger] arr.spec_data()[i])@.len()
                == arr.spec_data()[0]@.len(),
    ensures
        r@.len() == arr.spec_data()[0]@.len(),
        0 <= x < arr.spec_width() && 0 <= y < arr.spec_height() ==> r@ == arr.at(
            x as int,
            y as int,
        )@,
        !(0 <= x < arr.spec_width() && 0 <= y < arr.spec_height()) ==> all_false(r@),
{
    proof {
        crate::array2d::lemma_row_major_index_in_range(
            arr.spec_width() as int,
            arr.spec_height() as int,
            0,
            0,
        );
    }
    proof {
        assert(arr.at(0, 0) == arr.spec_data()[0]);
    }
    if x < 0 || y < 0 || x >= arr.width() as i64 || y >= arr.height() as i64 {
        Block::zeros_like(arr.get(0, 0))
    } else {
        proof {
            crate::array2d::lemma_row_major_index_in_range(
                arr.spec_width() as int,
                arr.spec_height() as int,
                x as int,
                y as int,
            );
            assert(arr.at(x as int, y as int) == arr.spec_data()[x as int + arr.spec_width() * (
            y as int)]);
        }
        arr.get(x as usize, y as usize).clone()
    }
}

} // verus!

