//! Concrete kernels: the layered convolution kernel that realizes totalistic
//! rules (Conway's Life, Larger-than-Life, MNCA) and the hand-written Life
//! kernel.

use vstd::prelude::*;
use vstd::arithmetic::power2::{
    lemma_pow2_adds, lemma_pow2_pos, lemma_pow2_strictly_increases, lemma2_to64, lemma2_to64_rest,
    pow2,
};
use crate::array2d::Array2D;
use crate::sim::{all_false, pow2_usize, Block, Kernel, KernelResult};

verus! {

/// Cell `(x, y)` of the `2 side x 2 side` assembly of four `side x side`
/// blocks laid out `[nw ne / sw se]`.
pub open spec fn assembly_at(
    nw: Seq<bool>,
    ne: Seq<bool>,
    sw: Seq<bool>,
    se: Seq<bool>,
    side: nat,
    x: int,
    y: int,
) -> bool {
    if x < side {
        if y < side {
            nw[x + side * y]
        } else {
            sw[x + side * (y - side)]
        }
    } else {
        if y < side {
            ne[(x - side) + side * y]
        } else {
            se[(x - side) + side * (y - side)]
        }
    }
}

/// How many of the first `upto` mask cells (row-major, mask width `m`) are
/// live both in the mask and in the assembly window whose origin is
/// `(oi, oj)`.
pub open spec fn overlap_count(
    layer: Seq<bool>,
    m: nat,
    nw: Seq<bool>,
    ne: Seq<bool>,
    sw: Seq<bool>,
    se: Seq<bool>,
    side: nat,
    oi: int,
    oj: int,
    upto: nat,
) -> int
    decreases upto,
{
    if upto == 0 {
        0
    } else {
        let t = (upto - 1) as int;
        overlap_count(layer, m, nw, ne, sw, se, side, oi, oj, (upto - 1) as nat) + if layer[t]
            && assembly_at(nw, ne, sw, se, side, oi + t % m as int, oj + t / m as int) {
            1int
        } else {
            0int
        }
    }
}

/// The overlap count is between 0 and the number of mask cells examined.
pub proof fn lemma_overlap_count_bounds(
    layer: Seq<bool>,
    m: nat,
    nw: Seq<bool>,
    ne: Seq<bool>,
    sw: Seq<bool>,
    se: Seq<bool>,
    side: nat,
    oi: int,
    oj: int,
    upto: nat,
)
    ensures
        0 <= overlap_count(layer, m, nw, ne, sw, se, side, oi, oj, upto) <= upto,
    decreases upto,
{
    if upto > 0 {
        lemma_overlap_count_bounds(layer, m, nw, ne, sw, se, side, oi, oj, (upto - 1) as nat);
    }
}

/// The per-rule decision function: maps the center cell and the per-layer
/// population counts to the next state of the center cell.
///
/// The set is closed; each variant is a pure rule over integer counts.
#[derive(Clone, Copy, Debug, PartialEq, Eq, Structural)]
pub enum Decider {
    /// Conway's Life over one 8-neighborhood ring layer: survive on 2 or 3,
    /// birth on 3.
    Life,
    /// Larger-than-Life over one filled-square layer: die at 33 or fewer
    /// neighbors, live at 34 to 45, die at 58 to 121, otherwise keep.
    LargerThanLife,
    /// A two-layer MNCA rule: a cascade of interval tests over the two
    /// normalized layer averages.  The fractional thresholds of the rule,
    /// scaled by the layer populations (108 and 36 cells), land exactly on
    /// the integer count ranges below.
    Mnca,
}

impl Decider {
    /// How many layer counts the decider reads.
    pub open spec fn spec_arity(&self) -> nat {
        match self {
            Decider::Life => 1,
            Decider::LargerThanLife => 1,
            Decider::Mnca => 2,
        }
    }

    /// The decision, as a function of the center cell and the counts.
    pub open spec fn spec_decide(&self, center: bool, counts: Seq<int>) -> bool {
        match self {
            Decider::Life => if center {
                counts[0] == 2 || counts[0] == 3
            } else {
                counts[0] == 3
            },
            Decider::LargerThanLife => {
                let n = counts[0];
                if n <= 33 {
                    false
                } else if 34 <= n <= 45 {
                    true
                } else if 58 <= n <= 121 {
                    false
                } else {
                    center
                }
            },
            Decider::Mnca => {
                let c0 = counts[0];
                let c1 = counts[1];
                let v1 = if c0 == 23 {
                    true
                } else {
                    center
                };
                let v2 = if 38 <= c0 <= 54 {
                    false
                } else {
                    v1
                };
                let v3 = if 81 <= c0 <= 91 {
                    false
                } else {
                    v2
                };
                let v4 = if 4 <= c1 <= 10 {
                    false
                } else {
                    v3
                };
                let v5 = if 16 <= c1 <= 19 {
                    true
                } else {
                    v4
                };
                if 13 <= c0 <= 16 {
                    false
                } else {
                    v5
                }
            },
        }
    }

    /// A decider that answers `false` for a dead center over all-zero counts
    /// keeps an empty world empty.
    pub open spec fn preserves_empty(&self, nlayers: nat) -> bool {
        !self.spec_decide(false, Seq::new(nlayers, |i: int| 0int))
    }

    /// Apply the decider.
    pub fn decide(&self, center: bool, counts: &Vec<usize>) -> (r: bool)
        requires
            counts@.len() >= self.spec_arity(),
        ensures
            r == self.spec_decide(center, counts@.map_values(|c: usize| c as int)),
    {
        match self {
            Decider::Life => {
                let n = counts[0];
                if center {
                    n == 2 || n == 3
                } else {
                    n == 3
                }
            },
            Decider::LargerThanLife => {
                let n = counts[0];
                if n <= 33 {
                    false
                } else if 34 <= n && n <= 45 {
                    true
                } else if 58 <= n && n <= 121 {
                    false
                } else {
                    center
                }
            },
            Decider::Mnca => {
                let c0 = counts[0];
                let c1 = counts[1];
                let mut out = center;
                if c0 == 23 {
                    out = true;
                }
                if 38 <= c0 && c0 <= 54 {
                    out = false;
                }
                if 81 <= c0 && c0 <= 91 {
                    out = false;
                }
                if 4 <= c1 && c1 <= 10 {
                    out = false;
                }
                if 16 <= c1 && c1 <= 19 {
                    out = true;
                }
                if 13 <= c0 && c0 <= 16 {
                    out = false;
                }
                out
            },
        }
    }
}

/// The mask widths a layered kernel accepts: `2 * 2^k + 1` for some `k`,
/// that is 3, 5, 9, 17, 33, ...
pub open spec fn is_valid_kernel_width(w: int) -> bool {
    exists|k: nat| w == 2 * pow2(k) + 1
}

/// Given a mask width `2 * 2^k + 1`, the block order is `k + 1`: the unique
/// order at which one output block can be computed exactly from a 2x2 block
/// assembly under that mask.
pub fn calculate_block_order_from_kernel_width(kernel_width: usize) -> (r: usize)
    requires
        is_valid_kernel_width(kernel_width as int),
    ensures
        1 <= r <= 64,
        kernel_width == 2 * pow2((r - 1) as nat) + 1,
{
    let ghost k0 = choose|k: nat| kernel_width as int == 2 * pow2(k) + 1;
    proof {
        lemma_pow2_pos(k0);
        lemma2_to64();
        lemma2_to64_rest();
        if k0 >= 64 {
            if k0 > 64 {
                lemma_pow2_strictly_increases(64, k0);
            }
            assert(pow2(k0) >= pow2(64));
            assert(false);
        }
    }
    let mut k: usize = 0;
    let mut radius: usize = 1;
    loop
        invariant
            k <= k0 < 64,
            radius == pow2(k as nat),
            kernel_width as int == 2 * pow2(k0) + 1,
        decreases k0 - k,
    {
        proof {
            if k as nat != k0 {
                lemma_pow2_strictly_increases(k as nat, k0);
            }
        }
        if kernel_width == 2 * radius + 1 {
            proof {
                if k as nat != k0 {
                    assert(pow2(k as nat) < pow2(k0));
                    assert(false);
                }
            }
            return k + 1;
        }
        proof {
            assert(k as nat != k0);
            lemma_pow2_adds(k as nat, 1);
            lemma2_to64();
            if k + 1 < k0 {
                lemma_pow2_strictly_increases((k + 1) as nat, k0);
            }
        }
        k = k + 1;
        radius = radius * 2;
    }
}

/// How many of the first `upto` cells of `s` are true.
pub open spec fn count_trues(s: Seq<bool>, upto: nat) -> int
    decreases upto,
{
    if upto == 0 {
        0
    } else {
        count_trues(s, (upto - 1) as nat) + if s[upto - 1] {
            1int
        } else {
            0int
        }
    }
}

/// `count_trues` is between 0 and the number of cells examined.
pub proof fn lemma_count_trues_bounds(s: Seq<bool>, upto: nat)
    ensures
        0 <= count_trues(s, upto) <= upto,
    decreases upto,
{
    if upto > 0 {
        lemma_count_trues_bounds(s, (upto - 1) as nat);
    }
}

/// The flat cell sequences of a list of mask arrays.
pub open spec fn layer_views(ls: Seq<Array2D<bool>>) -> Seq<Seq<bool>> {
    ls.map_values(|l: Array2D<bool>| l.spec_data())
}

/// One output cell of a layered kernel: the decider applied to the center of
/// the mask window at `(i, j)` and the per-layer overlap counts.
pub open spec fn layered_cell(
    d: Decider,
    layers: Seq<Seq<bool>>,
    m: nat,
    side: nat,
    nw: Seq<bool>,
    ne: Seq<bool>,
    sw: Seq<bool>,
    se: Seq<bool>,
    i: int,
    j: int,
) -> bool {
    d.spec_decide(
        assembly_at(nw, ne, sw, se, side, i + m as int / 2, j + m as int / 2),
        Seq::new(
            layers.len(),
            |l: int| overlap_count(layers[l], m, nw, ne, sw, se, side, i, j, (m * m) as nat),
        ),
    )
}

/// The full output block of a layered kernel over the assembly
/// `[nw ne / sw se]`, row-major.
pub open spec fn layered_step(
    d: Decider,
    layers: Seq<Seq<bool>>,
    m: nat,
    side: nat,
    nw: Seq<bool>,
    ne: Seq<bool>,
    sw: Seq<bool>,
    se: Seq<bool>,
) -> Seq<bool> {
    Seq::new(
        (side * side) as nat,
        |p: int|
            layered_cell(
                d,
                layers,
                m,
                side,
                nw,
                ne,
                sw,
                se,
                p % side as int,
                p / side as int,
            ),
    )
}

/// `(a + 1) * b == a * b + b`.
#[verifier::nonlinear]
proof fn lemma_mul_plus_one(a: int, b: int)
    ensures
        (a + 1) * b == a * b + b,
{
}

/// Copy the `w x w` cells of `b` into `buf` with their origin at
/// `(ox, oy)`; every cell outside that window keeps its value.
fn blit(buf: &mut Array2D<bool>, b: &Block, ox: usize, oy: usize, w: usize)
    requires
        old(buf).wf(),
        b@.len() == w * w,
        ox + w <= old(buf).spec_width(),
        oy + w <= old(buf).spec_height(),
    ensures
        final(buf).wf(),
        final(buf).spec_width() == old(buf).spec_width(),
        final(buf).spec_height() == old(buf).spec_height(),
        forall|x: int, y: int|
            0 <= x < w && 0 <= y < w ==> (#[trigger] final(buf).at(ox + x, oy + y)) == b@[x + w
                * y],
        forall|x: int, y: int|
            0 <= x < old(buf).spec_width() && 0 <= y < old(buf).spec_height() && !(ox <= x < ox + w
                && oy <= y < oy + w) ==> (#[trigger] final(buf).at(x, y)) == old(buf).at(x, y),
{
    let ghost buf0 = *buf;
    let data = b.data();
    let dlen: usize = data.len();
    let bw: usize = buf.width();
    let bh: usize = buf.height();
    let mut x: usize = 0;
    while x < w
        invariant
            x <= w,
            b@.len() == w * w,
            dlen == b@.len(),
            data@ == b@,
            ox + w <= bw,
            oy + w <= bh,
            buf.wf(),
            buf.spec_width() == bw,
            buf.spec_height() == bh,
            buf0.spec_width() == bw,
            buf0.spec_height() == bh,
            forall|u: int, v: int|
                0 <= u < x && 0 <= v < w ==> (#[trigger] buf.at(ox + u, oy + v)) == b@[u + w * v],
            forall|u: int, v: int|
                0 <= u < bw && 0 <= v < bh && !(ox <= u < ox + x && oy <= v < oy + w) ==> (
                #[trigger] buf.at(u, v)) == buf0.at(u, v),
        decreases w - x,
    {
        let mut y: usize = 0;
        while y < w
            invariant
                x < w,
                y <= w,
                b@.len() == w * w,
                dlen == b@.len(),
                data@ == b@,
                ox + w <= bw,
                oy + w <= bh,
                buf.wf(),
                buf.spec_width() == bw,
                buf.spec_height() == bh,
                buf0.spec_width() == bw,
                buf0.spec_height() == bh,
                forall|u: int, v: int|
                    0 <= u < x && 0 <= v < w ==> (#[trigger] buf.at(ox + u, oy + v)) == b@[u + w
                        * v],
                forall|v: int|
                    0 <= v < y ==> (#[trigger] buf.at(ox + x, oy + v)) == b@[x as int + w * v],
                forall|u: int, v: int|
                    0 <= u < bw && 0 <= v < bh && !(ox <= u < ox + x && oy <= v < oy + w) && !(u
                        == ox + x && oy <= v < oy + y) ==> (#[trigger] buf.at(u, v)) == buf0.at(
                        u,
                        v,
                    ),
            decreases w - y,
        {
            proof {
                crate::array2d::lemma_row_major_index_in_range(w as int, w as int, x as int, y as int);
            }
            let v = data[x + w * y];
            let ghost bufp = *buf;
            buf.set(ox + x, oy + y, v);
            proof {
                let ghost upd = (ox + x) as int + bw as int * ((oy + y) as int);
                crate::array2d::lemma_row_major_index_in_range(
                    bw as int,
                    bh as int,
                    (ox + x) as int,
                    (oy + y) as int,
                );
                assert(buf.spec_data() == bufp.spec_data().update(upd, v));
                assert forall|u: int, t: int| 0 <= u < bw && 0 <= t < bh && !(u == ox + x && t == oy
                    + y) implies (#[trigger] buf.at(u, t)) == bufp.at(u, t) by {
                    crate::array2d::lemma_row_major_index_in_range(bw as int, bh as int, u, t);
                    crate::array2d::lemma_row_major_index_distinct(
                        bw as int,
                        bh as int,
                        u,
                        t,
                        (ox + x) as int,
                        (oy + y) as int,
                    );
                }
                assert(buf.at((ox + x) as int, (oy + y) as int) == v);
            }
            y = y + 1;
        }
        x = x + 1;
    }
}

/// The shared execution path of every layered kernel: assemble the four
/// blocks into one `2 side x 2 side` buffer, then slide the mask window over
/// it and decide each output cell from the window's center and the per-layer
/// overlap counts.
fn layered_exec_core(
    decider: &Decider,
    layers: &Vec<Array2D<bool>>,
    order: usize,
    nw: &Block,
    ne: &Block,
    sw: &Block,
    se: &Block,
) -> (r: Block)
    requires
        1 <= order <= 14,
        layers@.len() >= 1,
        decider.spec_arity() <= layers@.len(),
        forall|l: int|
            0 <= l < layers@.len() ==> (#[trigger] layers@[l]).wf() && layers@[l].spec_width()
                == layers@[0].spec_width() && layers@[l].spec_height()
                == layers@[0].spec_width(),
        layers@[0].spec_width() == pow2(order as nat) + 1,
        nw@.len() == pow2(order as nat) * pow2(order as nat),
        ne@.len() == pow2(order as nat) * pow2(order as nat),
        sw@.len() == pow2(order as nat) * pow2(order as nat),
        se@.len() == pow2(order as nat) * pow2(order as nat),
    ensures
        r@ == layered_step(
            *decider,
            layer_views(layers@),
            layers@[0].spec_width(),
            pow2(order as nat),
            nw@,
            ne@,
            sw@,
            se@,
        ),
{
    proof {
        crate::sim::lemma_block_len_bounds(order as nat);
        lemma_pow2_adds((order - 1) as nat, 1);
        lemma2_to64();
        assert((2 * pow2(order as nat)) * (2 * pow2(order as nat)) == 4 * (pow2(order as nat)
            * pow2(order as nat))) by (nonlinear_arith);
        assert(pow2(order as nat) >= 2 ==> 2 * pow2(order as nat) <= pow2(order as nat) * pow2(
            order as nat,
        )) by (nonlinear_arith);
        assert(pow2(order as nat) >= 1 ==> (pow2(order as nat) + 1) * (pow2(order as nat) + 1)
            <= 4 * (pow2(order as nat) * pow2(order as nat))) by (nonlinear_arith);
    }
    let w = pow2_usize(order);
    let m = layers[0].width();
    let nlayers = layers.len();
    let ghost lvs = layer_views(layers@);
    let ghost d = *decider;
    let ghost side = w as nat;
    let mut buf: Array2D<bool> = Array2D::filled(2 * w, 2 * w, false);
    blit(&mut buf, nw, 0, 0, w);
    let ghost buf1 = buf;
    blit(&mut buf, ne, w, 0, w);
    let ghost buf2 = buf;
    blit(&mut buf, sw, 0, w, w);
    let ghost buf3 = buf;
    blit(&mut buf, se, w, w, w);
    proof {
        assert forall|x: int, y: int| 0 <= x < 2 * w && 0 <= y < 2 * w implies (#[trigger] buf.at(
            x,
            y,
        )) == assembly_at(nw@, ne@, sw@, se@, side, x, y) by {
            if x < w {
                if y < w {
                    assert(buf1.at(0 + x, 0 + y) == nw@[x + w * y]);
                    assert(buf2.at(x, y) == buf1.at(x, y));
                    assert(buf3.at(x, y) == buf2.at(x, y));
                    assert(buf.at(x, y) == buf3.at(x, y));
                } else {
                    assert(buf3.at(0 + x, w + (y - w)) == sw@[x + w * (y - w)]);
                    assert(buf.at(x, y) == buf3.at(x, y));
                }
            } else {
                if y < w {
                    assert(buf2.at(w + (x - w), 0 + y) == ne@[(x - w) + w * y]);
                    assert(buf3.at(x, y) == buf2.at(x, y));
                    assert(buf.at(x, y) == buf3.at(x, y));
                } else {
                    assert(buf.at(w + (x - w), w + (y - w)) == se@[(x - w) + w * (y - w)]);
                }
            }
        }
    }
    let mut out_data: Vec<bool> = Vec::new();
    let mut j: usize = 0;
    while j < w
        invariant
            j <= w,
            1 <= order <= 14,
            w == pow2(order as nat),
            2 <= w,
            4 * (w * w) <= usize::MAX,
            2 * w <= usize::MAX,
            m == w + 1,
            m * m <= usize::MAX,
            side == w as nat,
            nlayers == layers@.len(),
            1 <= nlayers,
            d.spec_arity() <= nlayers,
            d == *decider,
            lvs == layer_views(layers@),
            forall|l: int|
                0 <= l < layers@.len() ==> (#[trigger] layers@[l]).wf() && layers@[l].spec_width()
                    == m && layers@[l].spec_height() == m,
            buf.wf(),
            buf.spec_width() == 2 * w,
            buf.spec_height() == 2 * w,
            forall|x: int, y: int|
                0 <= x < 2 * w && 0 <= y < 2 * w ==> (#[trigger] buf.at(x, y)) == assembly_at(
                    nw@,
                    ne@,
                    sw@,
                    se@,
                    side,
                    x,
                    y,
                ),
            out_data@.len() == j * w,
            forall|p: int|
                0 <= p < j * w ==> (#[trigger] out_data@[p]) == layered_cell(
                    d,
                    lvs,
                    m as nat,
                    side,
                    nw@,
                    ne@,
                    sw@,
                    se@,
                    p % w as int,
                    p / w as int,
                ),
        decreases w - j,
    {
        let mut i: usize = 0;
        while i < w
            invariant
                i <= w,
                j < w,
                1 <= order <= 14,
                w == pow2(order as nat),
                2 <= w,
                4 * (w * w) <= usize::MAX,
                2 * w <= usize::MAX,
            2 * w <= usize::MAX,
                m == w + 1,
                m * m <= usize::MAX,
                side == w as nat,
                nlayers == layers@.len(),
                1 <= nlayers,
                d.spec_arity() <= nlayers,
                d == *decider,
                lvs == layer_views(layers@),
                forall|l: int|
                    0 <= l < layers@.len() ==> (#[trigger] layers@[l]).wf()
                        && layers@[l].spec_width() == m && layers@[l].spec_height() == m,
                buf.wf(),
                buf.spec_width() == 2 * w,
                buf.spec_height() == 2 * w,
                forall|x: int, y: int|
                    0 <= x < 2 * w && 0 <= y < 2 * w ==> (#[trigger] buf.at(x, y)) == assembly_at(
                        nw@,
                        ne@,
                        sw@,
                        se@,
                        side,
                        x,
                        y,
                    ),
                out_data@.len() == j * w + i,
                forall|p: int|
                    0 <= p < j * w + i ==> (#[trigger] out_data@[p]) == layered_cell(
                        d,
                        lvs,
                        m as nat,
                        side,
                        nw@,
                        ne@,
                        sw@,
                        se@,
                        p % w as int,
                        p / w as int,
                    ),
            decreases w - i,
        {
            let mut counts: Vec<usize> = Vec::new();
            let mut l: usize = 0;
            while l < nlayers
                invariant
                    l <= nlayers,
                    i < w,
                    j < w,
                    w == pow2(order as nat),
                    2 <= w,
                    4 * (w * w) <= usize::MAX,
                    2 * w <= usize::MAX,
                2 * w <= usize::MAX,
            2 * w <= usize::MAX,
                    m == w + 1,
                    m * m <= usize::MAX,
                    side == w as nat,
                    nlayers == layers@.len(),
                    lvs == layer_views(layers@),
                    forall|t: int|
                        0 <= t < layers@.len() ==> (#[trigger] layers@[t]).wf()
                            && layers@[t].spec_width() == m && layers@[t].spec_height() == m,
                    buf.wf(),
                    buf.spec_width() == 2 * w,
                    buf.spec_height() == 2 * w,
                    forall|x: int, y: int|
                        0 <= x < 2 * w && 0 <= y < 2 * w ==> (#[trigger] buf.at(x, y))
                            == assembly_at(nw@, ne@, sw@, se@, side, x, y),
                    counts@.len() == l,
                    forall|t: int|
                        0 <= t < l ==> (#[trigger] counts@[t]) == overlap_count(
                            lvs[t],
                            m as nat,
                            nw@,
                            ne@,
                            sw@,
                            se@,
                            side,
                            i as int,
                            j as int,
                            (m * m) as nat,
                        ),
                decreases nlayers - l,
            {
                let layer = &layers[l];
                let mut count: usize = 0;
                let mut y: usize = 0;
                while y < m
                    invariant
                        y <= m,
                        i < w,
                        j < w,
                        2 <= w,
                        4 * (w * w) <= usize::MAX,
                        2 * w <= usize::MAX,
                    2 * w <= usize::MAX,
                2 * w <= usize::MAX,
            2 * w <= usize::MAX,
                        m == w + 1,
                        m * m <= usize::MAX,
                        side == w as nat,
                        l < layers@.len(),
                        lvs == layer_views(layers@),
                        layer == layers@[l as int],
                        layer.wf(),
                        layer.spec_width() == m,
                        layer.spec_height() == m,
                        buf.wf(),
                        buf.spec_width() == 2 * w,
                        buf.spec_height() == 2 * w,
                        forall|x: int, t: int|
                            0 <= x < 2 * w && 0 <= t < 2 * w ==> (#[trigger] buf.at(x, t))
                                == assembly_at(nw@, ne@, sw@, se@, side, x, t),
                        count == overlap_count(
                            lvs[l as int],
                            m as nat,
                            nw@,
                            ne@,
                            sw@,
                            se@,
                            side,
                            i as int,
                            j as int,
                            (y * m) as nat,
                        ),
                    decreases m - y,
                {
                    let mut x: usize = 0;
                    while x < m
                        invariant
                            x <= m,
                            y < m,
                            i < w,
                            j < w,
                            2 <= w,
                            4 * (w * w) <= usize::MAX,
                            2 * w <= usize::MAX,
                        2 * w <= usize::MAX,
                    2 * w <= usize::MAX,
                2 * w <= usize::MAX,
            2 * w <= usize::MAX,
                            m == w + 1,
                            m * m <= usize::MAX,
                            side == w as nat,
                            l < layers@.len(),
                            lvs == layer_views(layers@),
                            layer == layers@[l as int],
                            layer.wf(),
                            layer.spec_width() == m,
                            layer.spec_height() == m,
                            buf.wf(),
                            buf.spec_width() == 2 * w,
                            buf.spec_height() == 2 * w,
                            forall|u: int, t: int|
                                0 <= u < 2 * w && 0 <= t < 2 * w ==> (#[trigger] buf.at(u, t))
                                    == assembly_at(nw@, ne@, sw@, se@, side, u, t),
                            count == overlap_count(
                                lvs[l as int],
                                m as nat,
                                nw@,
                                ne@,
                                sw@,
                                se@,
                                side,
                                i as int,
                                j as int,
                                (y * m + x) as nat,
                            ),
                        decreases m - x,
                    {
                        proof {
                            crate::array2d::lemma_row_major_index_in_range(
                                m as int,
                                m as int,
                                x as int,
                                y as int,
                            );
                            lemma_overlap_count_bounds(
                                lvs[l as int],
                                m as nat,
                                nw@,
                                ne@,
                                sw@,
                                se@,
                                side,
                                i as int,
                                j as int,
                                (y * m + x) as nat,
                            );
                            vstd::arithmetic::mul::lemma_mul_is_commutative(y as int, m as int);
                            vstd::arithmetic::div_mod::lemma_fundamental_div_mod_converse_mod(
                                y as int * m as int + x as int,
                                m as int,
                                y as int,
                                x as int,
                            );
                            vstd::arithmetic::div_mod::lemma_fundamental_div_mod_converse_div(
                                y as int * m as int + x as int,
                                m as int,
                                y as int,
                                x as int,
                            );
                            assert(lvs[l as int] == layers@[l as int].spec_data());
                        }
                        let lv = *layer.get(x, y);
                        let bv = *buf.get(i + x, j + y);
                        if lv && bv {
                            count = count + 1;
                        }
                        x = x + 1;
                    }
                    proof {
                        lemma_mul_plus_one(y as int, m as int);
                    }
                    y = y + 1;
                }
                proof {
                    assert((y * m) as nat == (m * m) as nat) by {
                        vstd::arithmetic::mul::lemma_mul_is_commutative(y as int, m as int);
                    }
                }
                counts.push(count);
                l = l + 1;
            }
            proof {
                lemma_mul_plus_one(j as int, w as int);
            }
            let center = *buf.get(i + m / 2, j + m / 2);
            let res = decider.decide(center, &counts);
            out_data.push(res);
            proof {
                assert(counts@.map_values(|c: usize| c as int) =~= Seq::new(
                    lvs.len(),
                    |t: int|
                        overlap_count(
                            lvs[t],
                            m as nat,
                            nw@,
                            ne@,
                            sw@,
                            se@,
                            side,
                            i as int,
                            j as int,
                            (m * m) as nat,
                        ),
                ));
                assert(res == layered_cell(
                    d,
                    lvs,
                    m as nat,
                    side,
                    nw@,
                    ne@,
                    sw@,
                    se@,
                    i as int,
                    j as int,
                ));
                let p = j as int * w as int + i as int;
                vstd::arithmetic::div_mod::lemma_fundamental_div_mod_converse_mod(
                    p,
                    w as int,
                    j as int,
                    i as int,
                );
                vstd::arithmetic::div_mod::lemma_fundamental_div_mod_converse_div(
                    p,
                    w as int,
                    j as int,
                    i as int,
                );
            }
            i = i + 1;
        }
        proof {
            lemma_mul_plus_one(j as int, w as int);
        }
        j = j + 1;
    }
    proof {
        vstd::arithmetic::mul::lemma_mul_is_commutative(j as int, w as int);
        assert(out_data@ =~= layered_step(
            *decider,
            layer_views(layers@),
            layers@[0].spec_width(),
            pow2(order as nat),
            nw@,
            ne@,
            sw@,
            se@,
        ));
    }
    Block::from_data(out_data)
}

/// The layered convolution kernel: a non-empty list of equally-sized square
/// boolean masks (one population count per mask and output cell) and the
/// decider that maps the counts to the next center state.
pub struct LayeredKernel {
    decider: Decider,
    layers: Vec<Array2D<bool>>,
    block_order: usize,
}

impl LayeredKernel {
    pub closed spec fn spec_decider(&self) -> Decider {
        self.decider
    }

    pub closed spec fn spec_layer_arrays(&self) -> Seq<Array2D<bool>> {
        self.layers@
    }

    /// The flat cell sequences of the masks.
    pub open spec fn spec_layers(&self) -> Seq<Seq<bool>> {
        layer_views(self.spec_layer_arrays())
    }

    /// The shared mask width (and height).
    pub open spec fn mask_width(&self) -> nat {
        self.spec_layer_arrays()[0].spec_width()
    }

    /// Build a layered kernel; the block order is derived from the mask
    /// width, which must be a valid width `2 * 2^k + 1` small enough for the
    /// engine's buffers (`k < 14`).
    pub fn new(decider: Decider, layers: Vec<Array2D<bool>>) -> (r: LayeredKernel)
        requires
            layers@.len() >= 1,
            forall|l: int|
                0 <= l < layers@.len() ==> (#[trigger] layers@[l]).wf() && layers@[l].spec_width()
                    == layers@[0].spec_width() && layers@[l].spec_height()
                    == layers@[0].spec_width(),
            is_valid_kernel_width(layers@[0].spec_width() as int),
            layers@[0].spec_width() <= pow2(14) + 1,
            decider.spec_arity() <= layers@.len(),
        ensures
            r.wf(),
            r.spec_decider() == decider,
            r.spec_layer_arrays() == layers@,
            2 * pow2((r.spec_order() - 1) as nat) + 1 == r.mask_width(),
            r.mask_width() == layers@[0].spec_width(),
    {
        let m = layers[0].width();
        let block_order = calculate_block_order_from_kernel_width(m);
        proof {
            lemma_pow2_adds((block_order - 1) as nat, 1);
            lemma2_to64();
            assert(pow2(block_order as nat) == 2 * pow2((block_order - 1) as nat));
            if block_order > 14 {
                lemma_pow2_strictly_increases(14, block_order as nat);
                assert(false);
            }
        }
        LayeredKernel { decider, layers, block_order }
    }
}

impl Kernel for LayeredKernel {
    closed spec fn wf(&self) -> bool {
        &&& 1 <= self.block_order <= 14
        &&& self.layers@.len() >= 1
        &&& self.decider.spec_arity() <= self.layers@.len()
        &&& (forall|l: int|
            0 <= l < self.layers@.len() ==> (#[trigger] self.layers@[l]).wf()
                && self.layers@[l].spec_width() == self.mask_width()
                && self.layers@[l].spec_height() == self.mask_width())
        &&& self.mask_width() == pow2(self.block_order as nat) + 1
    }

    closed spec fn spec_order(&self) -> nat {
        self.block_order as nat
    }

    open spec fn spec_exec(&self, nw: Seq<bool>, ne: Seq<bool>, sw: Seq<bool>, se: Seq<bool>) -> Seq<
        bool,
    > {
        layered_step(
            self.spec_decider(),
            self.spec_layers(),
            self.mask_width(),
            pow2(self.spec_order()),
            nw,
            ne,
            sw,
            se,
        )
    }

    proof fn lemma_wf_bounds(&self) {
    }

    proof fn lemma_exec_len(&self, nw: Seq<bool>, ne: Seq<bool>, sw: Seq<bool>, se: Seq<bool>) {
    }

    fn order(&self) -> (r: usize) {
        self.block_order
    }

    /// Always returns an exact block: the tag is `NewBlock`.
    fn exec(&mut self, nw: Block, ne: Block, sw: Block, se: Block) -> (r: (Block, KernelResult))
        ensures
            r.1 == KernelResult::NewBlock,
    {
        let out = layered_exec_core(
            &self.decider,
            &self.layers,
            self.block_order,
            &nw,
            &ne,
            &sw,
            &se,
        );
        (out, KernelResult::NewBlock)
    }
}

/// The 8-neighborhood ring mask of Conway's Life: all of a 3x3 square except
/// its center.
pub open spec fn life_mask() -> Seq<bool> {
    Seq::new(9, |t: int| t != 4)
}

/// The hand-written Life kernel: order 1, realizing Conway's Life directly.
pub struct Life;

impl Kernel for Life {
    open spec fn wf(&self) -> bool {
        true
    }

    open spec fn spec_order(&self) -> nat {
        1
    }

    open spec fn spec_exec(&self, nw: Seq<bool>, ne: Seq<bool>, sw: Seq<bool>, se: Seq<bool>) -> Seq<
        bool,
    > {
        layered_step(Decider::Life, seq![life_mask()], 3, 2, nw, ne, sw, se)
    }

    proof fn lemma_wf_bounds(&self) {
    }

    proof fn lemma_exec_len(&self, nw: Seq<bool>, ne: Seq<bool>, sw: Seq<bool>, se: Seq<bool>) {
        lemma2_to64();
    }

    fn order(&self) -> (r: usize) {
        1
    }

    /// Always returns an exact block: the tag is `NewBlock`.
    fn exec(&mut self, nw: Block, ne: Block, sw: Block, se: Block) -> (r: (Block, KernelResult))
        ensures
            r.1 == KernelResult::NewBlock,
    {
        proof {
            lemma2_to64();
        }
        let mut mv: Vec<bool> = Vec::new();
        let mut t: usize = 0;
        while t < 9
            invariant
                t <= 9,
                mv@.len() == t,
                forall|u: int| 0 <= u < t ==> (#[trigger] mv@[u]) == (u != 4),
            decreases 9 - t,
        {
            mv.push(t != 4);
            t = t + 1;
        }
        let mask = Array2D::from_array(3, mv);
        let mut layers: Vec<Array2D<bool>> = Vec::new();
        layers.push(mask);
        let out = layered_exec_core(&Decider::Life, &layers, 1, &nw, &ne, &sw, &se);
        proof {
            assert(layers@[0].spec_data() =~= life_mask());
            assert(layer_views(layers@) =~= seq![life_mask()]);
        }
        (out, KernelResult::NewBlock)
    }
}

/// Equal powers of two have equal exponents.
proof fn lemma_pow2_injective(a: nat, b: nat)
    requires
        pow2(a) == pow2(b),
    ensures
        a == b,
{
    if a < b {
        lemma_pow2_strictly_increases(a, b);
    }
    if b < a {
        lemma_pow2_strictly_increases(b, a);
    }
}

/// The Life rule as a layered kernel: one 3x3 ring mask and the Life decider.
pub fn life_layered_kernel() -> (r: LayeredKernel)
    ensures
        r.wf(),
        r.spec_order() == 1,
        r.spec_decider() == Decider::Life,
        r.spec_layers() == seq![life_mask()],
{
    let mut mv: Vec<bool> = Vec::new();
    let mut t: usize = 0;
    while t < 9
        invariant
            t <= 9,
            mv@.len() == t,
            forall|u: int| 0 <= u < t ==> (#[trigger] mv@[u]) == (u != 4),
        decreases 9 - t,
    {
        mv.push(t != 4);
        t = t + 1;
    }
    let mask = Array2D::from_array(3, mv);
    let mut layers: Vec<Array2D<bool>> = Vec::new();
    layers.push(mask);
    proof {
        lemma2_to64();
        assert(3int == 2 * pow2(0) + 1);
        assert(is_valid_kernel_width(3));
    }
    let k = LayeredKernel::new(Decider::Life, layers);
    proof {
        lemma2_to64();
        assert(pow2((k.spec_order() - 1) as nat) == pow2(0));
        lemma_pow2_injective((k.spec_order() - 1) as nat, 0);
        assert(k.spec_layer_arrays()[0].spec_data() =~= life_mask());
        assert(k.spec_layers() =~= seq![life_mask()]);
    }
    k
}

/// The 17x17 mask of the Larger-than-Life rule: an 11x11 filled square
/// centered in the mask.
pub open spec fn ltl_mask() -> Seq<bool> {
    Seq::new(289, |t: int| 3 <= t % 17 < 14 && 3 <= t / 17 < 14)
}

/// The Larger-than-Life rule: a 17x17 filled-square mask and interval
/// thresholds on the neighbor count.
pub fn larger_than_life_layered_kernel() -> (r: LayeredKernel)
    ensures
        r.wf(),
        r.spec_order() == 4,
        r.spec_decider() == Decider::LargerThanLife,
        r.spec_layers() == seq![ltl_mask()],
{
    let mut mv: Vec<bool> = Vec::new();
    let mut t: usize = 0;
    while t < 289
        invariant
            t <= 289,
            mv@.len() == t,
            forall|u: int| 0 <= u < t ==> (#[trigger] mv@[u]) == ltl_mask()[u],
        decreases 289 - t,
    {
        let x = t % 17;
        let y = t / 17;
        mv.push(3 <= x && x < 14 && 3 <= y && y < 14);
        t = t + 1;
    }
    let mask = Array2D::from_array(17, mv);
    let mut layers: Vec<Array2D<bool>> = Vec::new();
    layers.push(mask);
    proof {
        lemma2_to64();
        assert(17int == 2 * pow2(3) + 1);
        assert(is_valid_kernel_width(17));
    }
    let k = LayeredKernel::new(Decider::LargerThanLife, layers);
    proof {
        lemma2_to64();
        assert(pow2((k.spec_order() - 1) as nat) == pow2(3));
        lemma_pow2_injective((k.spec_order() - 1) as nat, 3);
        assert(k.spec_layer_arrays()[0].spec_data() =~= ltl_mask());
        assert(k.spec_layers() =~= seq![ltl_mask()]);
    }
    k
}

/// Whether the offset `(dx, dy)` lies in the ring with squared radii
/// `[inner_sq, outer_sq)`.
pub open spec fn ring_cond(inner_sq: int, outer_sq: int, dx: int, dy: int) -> bool {
    inner_sq <= dx * dx + dy * dy < outer_sq
}

/// `a * a <= b * b` for `|a| <= b`.
#[verifier::nonlinear]
proof fn lemma_square_le(a: int, b: int)
    requires
        -b <= a <= b,
    ensures
        0 <= a * a <= b * b,
{
}

/// Set every cell of a square, odd-sided mask whose offset from the center
/// lies in the ring with squared radii `[inner_sq, outer_sq)`; other cells
/// keep their value.
pub fn draw_ring(arr: &mut Array2D<bool>, inner_sq: i32, outer_sq: i32)
    requires
        old(arr).wf(),
        old(arr).spec_width() == old(arr).spec_height(),
        old(arr).spec_width() % 2 == 1,
        old(arr).spec_width() <= 65535,
    ensures
        final(arr).wf(),
        final(arr).spec_width() == old(arr).spec_width(),
        final(arr).spec_height() == old(arr).spec_height(),
        forall|x: int, y: int|
            0 <= x < old(arr).spec_width() && 0 <= y < old(arr).spec_height() ==> (
            #[trigger] final(arr).at(x, y)) == (old(arr).at(x, y) || ring_cond(
                inner_sq as int,
                outer_sq as int,
                x - old(arr).spec_width() as int / 2,
                y - old(arr).spec_width() as int / 2,
            )),
{
    let ghost a0 = *arr;
    let n = arr.width();
    let w: i32 = (n / 2) as i32;
    let mut i: usize = 0;
    while i < n
        invariant
            i <= n,
            n == a0.spec_width(),
            n <= 65535,
            w == n as int / 2,
            arr.wf(),
            arr.spec_width() == n,
            arr.spec_height() == n,
            a0.spec_height() == n,
            forall|x: int, y: int|
                0 <= x < i && 0 <= y < n ==> (#[trigger] arr.at(x, y)) == (a0.at(x, y)
                    || ring_cond(inner_sq as int, outer_sq as int, x - w, y - w)),
            forall|x: int, y: int|
                i <= x < n && 0 <= y < n ==> (#[trigger] arr.at(x, y)) == a0.at(x, y),
        decreases n - i,
    {
        let mut j: usize = 0;
        while j < n
            invariant
                i < n,
                j <= n,
                n == a0.spec_width(),
                n <= 65535,
                w == n as int / 2,
                arr.wf(),
                arr.spec_width() == n,
                arr.spec_height() == n,
                a0.spec_height() == n,
                forall|x: int, y: int|
                    0 <= x < i && 0 <= y < n ==> (#[trigger] arr.at(x, y)) == (a0.at(x, y)
                        || ring_cond(inner_sq as int, outer_sq as int, x - w, y - w)),
                forall|y: int|
                    0 <= y < j ==> (#[trigger] arr.at(i as int, y)) == (a0.at(i as int, y)
                        || ring_cond(inner_sq as int, outer_sq as int, i - w, y - w)),
                forall|y: int|
                    j <= y < n ==> (#[trigger] arr.at(i as int, y)) == a0.at(i as int, y),
                forall|x: int, y: int|
                    i < x < n && 0 <= y < n ==> (#[trigger] arr.at(x, y)) == a0.at(x, y),
            decreases n - j,
        {
            let dx: i32 = i as i32 - w;
            let dy: i32 = j as i32 - w;
            proof {
                lemma_square_le(dx as int, 32767);
                lemma_square_le(dy as int, 32767);
            }
            let r2: i32 = dx * dx + dy * dy;
            if inner_sq <= r2 && r2 < outer_sq {
                let ghost ap = *arr;
                arr.set(i, j, true);
                proof {
                    let ghost upd = i as int + n as int * (j as int);
                    crate::array2d::lemma_row_major_index_in_range(
                        n as int,
                        n as int,
                        i as int,
                        j as int,
                    );
                    assert(arr.spec_data() == ap.spec_data().update(upd, true));
                    assert forall|x: int, y: int| 0 <= x < n && 0 <= y < n && !(x == i && y
                        == j) implies arr.at(x, y) == ap.at(x, y) by {
                        crate::array2d::lemma_row_major_index_in_range(n as int, n as int, x, y);
                        crate::array2d::lemma_row_major_index_distinct(
                            n as int,
                            n as int,
                            x,
                            y,
                            i as int,
                            j as int,
                        );
                    }
                    assert(arr.at(i as int, j as int) == true);
                    assert forall|x: int, y: int| 0 <= x < i && 0 <= y < n implies (
                    #[trigger] arr.at(x, y)) == (a0.at(x, y) || ring_cond(
                        inner_sq as int,
                        outer_sq as int,
                        x - w,
                        y - w,
                    )) by {
                        assert(arr.at(x, y) == ap.at(x, y));
                    }
                    assert forall|y: int| 0 <= y < j + 1 implies (#[trigger] arr.at(i as int, y))
                        == (a0.at(i as int, y) || ring_cond(
                        inner_sq as int,
                        outer_sq as int,
                        i - w,
                        y - w,
                    )) by {
                        if y < j {
                            assert(arr.at(i as int, y) == ap.at(i as int, y));
                        }
                    }
                    assert forall|y: int| j + 1 <= y < n implies (#[trigger] arr.at(i as int, y))
                        == a0.at(i as int, y) by {
                        assert(arr.at(i as int, y) == ap.at(i as int, y));
                    }
                    assert forall|x: int, y: int| i < x < n && 0 <= y < n implies (
                    #[trigger] arr.at(x, y)) == a0.at(x, y) by {
                        assert(arr.at(x, y) == ap.at(x, y));
                    }
                }
            }
            j = j + 1;
        }
        i = i + 1;
    }
}

/// The outer mask of the basic MNCA rule: a 17x17 ring with squared radii
/// `[25, 56)` (108 live cells).
pub open spec fn mnca_outer_mask() -> Seq<bool> {
    Seq::new(289, |t: int| ring_cond(25, 56, t % 17 - 8, t / 17 - 8))
}

/// The inner mask of the basic MNCA rule: a 17x17 ring with squared radii
/// `[1, 12)` (36 live cells).
pub open spec fn mnca_inner_mask() -> Seq<bool> {
    Seq::new(289, |t: int| ring_cond(1, 12, t % 17 - 8, t / 17 - 8))
}

/// A basic two-layer MNCA rule: an outer and an inner ring mask with a
/// cascade of interval tests over the normalized counts.
pub fn basic_mnca() -> (r: LayeredKernel)
    ensures
        r.wf(),
        r.spec_order() == 4,
        r.spec_decider() == Decider::Mnca,
        r.spec_layers() == seq![mnca_outer_mask(), mnca_inner_mask()],
{
    let mut layer0 = Array2D::filled(17, 17, false);
    draw_ring(&mut layer0, 25, 56);
    let mut layer1 = Array2D::filled(17, 17, false);
    draw_ring(&mut layer1, 1, 12);
    proof {
        lemma_mask_from_ring(&layer0, 25, 56);
        lemma_mask_from_ring(&layer1, 1, 12);
        assert(layer0.spec_data() == mnca_outer_mask());
        assert(layer1.spec_data() == mnca_inner_mask());
        lemma2_to64();
        assert(17int == 2 * pow2(3) + 1);
        assert(is_valid_kernel_width(17));
    }
    let mut layers: Vec<Array2D<bool>> = Vec::new();
    layers.push(layer0);
    layers.push(layer1);
    let k = LayeredKernel::new(Decider::Mnca, layers);
    proof {
        lemma2_to64();
        assert(pow2((k.spec_order() - 1) as nat) == pow2(3));
        lemma_pow2_injective((k.spec_order() - 1) as nat, 3);
        assert(k.spec_layers() =~= seq![mnca_outer_mask(), mnca_inner_mask()]);
    }
    k
}

/// A 17x17 array drawn from all-false by one ring holds exactly the flat
/// ring mask.
proof fn lemma_mask_from_ring(arr: &Array2D<bool>, inner_sq: int, outer_sq: int)
    requires
        arr.wf(),
        arr.spec_width() == 17,
        arr.spec_height() == 17,
        forall|x: int, y: int|
            0 <= x < 17 && 0 <= y < 17 ==> (#[trigger] arr.at(x, y)) == ring_cond(
                inner_sq,
                outer_sq,
                x - 8,
                y - 8,
            ),
    ensures
        arr.spec_data() == Seq::new(289, |t: int| ring_cond(inner_sq, outer_sq, t % 17 - 8, t / 17 - 8)),
{
    assert(arr.spec_data() =~= Seq::new(
        289,
        |t: int| ring_cond(inner_sq, outer_sq, t % 17 - 8, t / 17 - 8),
    )) by {
        assert forall|t: int| 0 <= t < 289 implies arr.spec_data()[t] == ring_cond(
            inner_sq,
            outer_sq,
            t % 17 - 8,
            t / 17 - 8,
        ) by {
            vstd::arithmetic::div_mod::lemma_mod_bound(t, 17);
            vstd::arithmetic::div_mod::lemma_multiply_divide_lt(t, 17, 17);
            vstd::arithmetic::div_mod::lemma_div_pos_is_pos(t, 17);
            vstd::arithmetic::div_mod::lemma_fundamental_div_mod(t, 17);
            assert(arr.at(t % 17, t / 17) == ring_cond(inner_sq, outer_sq, t % 17 - 8, t / 17 - 8));
            assert(arr.at(t % 17, t / 17) == arr.spec_data()[t % 17 + 17 * (t / 17)]);
        }
    }
}

/// Cells of an all-dead assembly are dead.
proof fn lemma_assembly_empty(
    nw: Seq<bool>,
    ne: Seq<bool>,
    sw: Seq<bool>,
    se: Seq<bool>,
    side: nat,
    x: int,
    y: int,
)
    requires
        side >= 1,
        nw.len() == side * side,
        ne.len() == side * side,
        sw.len() == side * side,
        se.len() == side * side,
        all_false(nw),
        all_false(ne),
        all_false(sw),
        all_false(se),
        0 <= x < 2 * side,
        0 <= y < 2 * side,
    ensures
        !assembly_at(nw, ne, sw, se, side, x, y),
{
    if x < side {
        if y < side {
            crate::array2d::lemma_row_major_index_in_range(side as int, side as int, x, y);
        } else {
            crate::array2d::lemma_row_major_index_in_range(side as int, side as int, x, y - side);
        }
    } else {
        if y < side {
            crate::array2d::lemma_row_major_index_in_range(side as int, side as int, x - side, y);
        } else {
            crate::array2d::lemma_row_major_index_in_range(
                side as int,
                side as int,
                x - side,
                y - side,
            );
        }
    }
}

/// Masks see zero overlap over an all-dead assembly.
proof fn lemma_overlap_count_empty(
    layer: Seq<bool>,
    m: nat,
    nw: Seq<bool>,
    ne: Seq<bool>,
    sw: Seq<bool>,
    se: Seq<bool>,
    side: nat,
    oi: int,
    oj: int,
    upto: nat,
)
    requires
        side >= 1,
        1 <= m,
        upto <= m * m,
        0 <= oi,
        0 <= oj,
        oi + m <= 2 * side,
        oj + m <= 2 * side,
        nw.len() == side * side,
        ne.len() == side * side,
        sw.len() == side * side,
        se.len() == side * side,
        all_false(nw),
        all_false(ne),
        all_false(sw),
        all_false(se),
    ensures
        overlap_count(layer, m, nw, ne, sw, se, side, oi, oj, upto) == 0,
    decreases upto,
{
    if upto > 0 {
        lemma_overlap_count_empty(layer, m, nw, ne, sw, se, side, oi, oj, (upto - 1) as nat);
        let t = (upto - 1) as int;
        vstd::arithmetic::div_mod::lemma_mod_bound(t, m as int);
        vstd::arithmetic::div_mod::lemma_multiply_divide_lt(t, m as int, m as int);
        vstd::arithmetic::div_mod::lemma_div_pos_is_pos(t, m as int);
        lemma_assembly_empty(nw, ne, sw, se, side, oi + t % m as int, oj + t / m as int);
    }
}

/// Identity on empty: a layered rule whose decider preserves emptiness maps
/// an all-dead assembly to an all-dead block.
pub proof fn lemma_layered_step_empty(
    d: Decider,
    layers: Seq<Seq<bool>>,
    m: nat,
    side: nat,
    nw: Seq<bool>,
    ne: Seq<bool>,
    sw: Seq<bool>,
    se: Seq<bool>,
)
    requires
        side >= 1,
        1 <= m <= side + 1,
        nw.len() == side * side,
        ne.len() == side * side,
        sw.len() == side * side,
        se.len() == side * side,
        all_false(nw),
        all_false(ne),
        all_false(sw),
        all_false(se),
        d.preserves_empty(layers.len()),
    ensures
        all_false(layered_step(d, layers, m, side, nw, ne, sw, se)),
{
    assert forall|p: int| 0 <= p < side * side implies !layered_step(
        d,
        layers,
        m,
        side,
        nw,
        ne,
        sw,
        se,
    )[p] by {
        crate::array2d::lemma_row_major_index_in_range(side as int, side as int, 0, 0);
        vstd::arithmetic::div_mod::lemma_mod_bound(p, side as int);
        vstd::arithmetic::div_mod::lemma_multiply_divide_lt(p, side as int, side as int);
        vstd::arithmetic::div_mod::lemma_div_pos_is_pos(p, side as int);
        let i = p % side as int;
        let j = p / side as int;
        assert(Seq::new(
            layers.len(),
            |l: int| overlap_count(layers[l], m, nw, ne, sw, se, side, i, j, (m * m) as nat),
        ) =~= Seq::new(layers.len(), |l: int| 0int)) by {
            assert forall|l: int| 0 <= l < layers.len() implies overlap_count(
                layers[l],
                m,
                nw,
                ne,
                sw,
                se,
                side,
                i,
                j,
                (m * m) as nat,
            ) == 0 by {
                lemma_overlap_count_empty(layers[l], m, nw, ne, sw, se, side, i, j, (m * m) as nat);
            }
        }
        lemma_assembly_empty(nw, ne, sw, se, side, i + m as int / 2, j + m as int / 2);
    }
}

/// Order/width coherence: for every well-formed layered kernel,
/// `2 * 2^(order - 1) + 1` equals the mask width.
pub proof fn lemma_order_width_coherence(k: &LayeredKernel)
    requires
        k.wf(),
    ensures
        2 * pow2((k.spec_order() - 1) as nat) + 1 == k.mask_width(),
{
    lemma_pow2_adds((k.spec_order() - 1) as nat, 1);
    lemma2_to64();
}

/// Identity on empty, at the kernel level: a well-formed layered kernel
/// whose decider preserves emptiness maps all-dead blocks to an all-dead
/// block.
pub proof fn lemma_layered_kernel_empty(
    k: &LayeredKernel,
    nw: Seq<bool>,
    ne: Seq<bool>,
    sw: Seq<bool>,
    se: Seq<bool>,
)
    requires
        k.wf(),
        nw.len() == pow2(k.spec_order()) * pow2(k.spec_order()),
        ne.len() == pow2(k.spec_order()) * pow2(k.spec_order()),
        sw.len() == pow2(k.spec_order()) * pow2(k.spec_order()),
        se.len() == pow2(k.spec_order()) * pow2(k.spec_order()),
        all_false(nw),
        all_false(ne),
        all_false(sw),
        all_false(se),
        k.spec_decider().preserves_empty(k.spec_layers().len()),
    ensures
        all_false(k.spec_exec(nw, ne, sw, se)),
{
    lemma_pow2_pos(k.spec_order());
    lemma_layered_step_empty(
        k.spec_decider(),
        k.spec_layers(),
        k.mask_width(),
        pow2(k.spec_order()),
        nw,
        ne,
        sw,
        se,
    );
}

/// Identity on empty, at the grid level: one step of an all-dead grid under
/// a layered kernel whose decider preserves emptiness leaves every
/// destination block all-dead — and hence, by induction over `step`'s
/// postcondition, the grid stays empty indefinitely.
pub proof fn lemma_empty_grid_step_layered(g: &crate::sim::Dense<LayeredKernel>)
    requires
        g.wf(),
        forall|x: int, y: int|
            0 <= x < g.blocks_w() && 0 <= y < g.blocks_h() ==> all_false(
                #[trigger] g.front_at(x, y),
            ),
        g.spec_kernel().spec_decider().preserves_empty(g.spec_kernel().spec_layers().len()),
    ensures
        forall|i: int, j: int| all_false(#[trigger] g.step_result(i, j)),
{
    g.lemma_wf_block_facts();
    let k = g.spec_kernel();
    assert forall|a: Seq<bool>, b: Seq<bool>, c: Seq<bool>, d: Seq<bool>|
        a.len() == g.side() * g.side() && b.len() == g.side() * g.side() && c.len() == g.side()
            * g.side() && d.len() == g.side() * g.side() && all_false(a) && all_false(b)
            && all_false(c) && all_false(d) implies all_false(
        #[trigger] g.spec_kernel().spec_exec(a, b, c, d),
    ) by {
        lemma_layered_kernel_empty(&k, a, b, c, d);
    }
    crate::sim::lemma_empty_grid_step(g);
}

/// The Life decider preserves emptiness: a dead cell with zero neighbors
/// stays dead.  So do the Larger-than-Life and MNCA deciders.
pub proof fn lemma_deciders_preserve_empty(nlayers: nat)
    requires
        nlayers >= 1,
    ensures
        Decider::Life.preserves_empty(nlayers),
        Decider::LargerThanLife.preserves_empty(nlayers),
        nlayers >= 2 ==> Decider::Mnca.preserves_empty(nlayers),
{
}

/// The number of live cells in a mask.
pub fn count_true(arr: &Array2D<bool>) -> (r: usize)
    ensures
        r == count_trues(arr.spec_data(), arr.spec_data().len()),
{
    let data = arr.data();
    let n: usize = data.len();
    let mut count: usize = 0;
    let mut i: usize = 0;
    while i < n
        invariant
            i <= n,
            n == data@.len(),
            data@ == arr.spec_data(),
            count == count_trues(arr.spec_data(), i as nat),
        decreases n - i,
    {
        proof {
            lemma_count_trues_bounds(arr.spec_data(), i as nat);
        }
        if data[i] {
            count = count + 1;
        }
        i = i + 1;
    }
    count
}

} // verus!
