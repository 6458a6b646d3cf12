//! The Canny edge detector: Gaussian blur, Sobel gradients, non-maxima
//! suppression, and hysteresis edge linking by flood fill from strong edges.

use vstd::prelude::*;
use crate::array3::{Array3, GridSpec};
use crate::conv::is_conv_of;
use crate::error::Error;
use crate::fx::{rot_degrees, rot_degrees_s};
use crate::kernels::{gauss_shape_ok, is_gauss_kernel, GaussianFilter};
use crate::padding::Padding;
use crate::sobel::{is_sobel_mag_of, is_sobel_rot_of};

verus! {

/// A rotation folded into `[0, 180)` degrees, so that opposite directions
/// land on the same line. Values that start more than a half-turn outside
/// that range stay outside it, exactly as a single fold leaves them.
pub open spec fn folded_degrees(a: int) -> int {
    let d = rot_degrees_s(a);
    if d >= 180 {
        d - 180
    } else if d < 0 {
        d + 180
    } else {
        d
    }
}

/// The offset of the first neighbour compared for a rotation value: east for
/// a near-horizontal gradient, then the north-east, north and north-west
/// diagonals as the folded angle grows. The second neighbour is its mirror.
pub open spec fn dir_delta(a: int) -> (int, int) {
    let d = folded_degrees(a);
    if d < 45 {
        (0int, -1int)
    } else if d < 90 {
        (-1int, 1int)
    } else if d < 135 {
        (-1int, 0int)
    } else {
        (-1int, -1int)
    }
}

/// The magnitude of the neighbour at offset (dr, dc) from (r, c), taken as
/// zero when it falls outside the grid.
pub open spec fn nbr_mag(m: GridSpec<i64>, r: int, c: int, dr: int, dc: int) -> int {
    if m.in_grid(r + dr, c + dc) {
        m.val(r + dr, c + dc, 0) as int
    } else {
        0
    }
}

/// A pixel is suppressed when either neighbour along its gradient direction
/// strictly exceeds its own magnitude.
pub open spec fn suppressed(m: GridSpec<i64>, rot: GridSpec<i64>, r: int, c: int) -> bool {
    let dd = dir_delta(rot.val(r, c, 0) as int);
    nbr_mag(m, r, c, dd.0, dd.1) > m.val(r, c, 0) as int || nbr_mag(m, r, c, -dd.0, -dd.1)
        > m.val(r, c, 0) as int
}

/// The output of non-maxima suppression at (r, c, ch): zero for a suppressed
/// pixel (on all its channels), the input magnitude otherwise.
pub open spec fn nms_val(m: GridSpec<i64>, rot: GridSpec<i64>, r: int, c: int, ch: int) -> int {
    if suppressed(m, rot, r, c) {
        0
    } else {
        m.val(r, c, ch) as int
    }
}

/// `out` is the non-maxima suppression of `m` under the directions `rot`.
pub open spec fn is_nms_of(out: GridSpec<i64>, m: GridSpec<i64>, rot: GridSpec<i64>) -> bool {
    &&& out.wf()
    &&& out.rows == m.rows && out.cols == m.cols && out.chans == m.chans
    &&& forall|r: int, c: int, ch: int|
        out.in_bounds(r, c, ch) ==> #[trigger] out.val(r, c, ch) as int == nms_val(m, rot, r, c, ch)
}

/// Read the magnitude of the neighbour at offset (dr, dc), zero outside.
fn read_nbr(m: &Array3<i64>, r: usize, c: usize, dr: i64, dc: i64) -> (v: i64)
    requires
        m@.wf(),
        m@.chans >= 1,
        m@.in_grid(r as int, c as int),
        -1 <= dr <= 1,
        -1 <= dc <= 1,
    ensures
        v as int == nbr_mag(m@, r as int, c as int, dr as int, dc as int),
{
    let rr: i128 = r as i128 + dr as i128;
    let cc: i128 = c as i128 + dc as i128;
    if rr >= 0 && cc >= 0 && rr < m.rows as i128 && cc < m.cols as i128 {
        m.elem(rr as usize, cc as usize, 0)
    } else {
        0
    }
}

/// Non-maxima suppression: quantize each pixel's gradient direction into one
/// of four bins and zero its magnitude unless it is a local maximum along
/// that direction. A neighbour beyond the array edge counts as zero. The
/// result is a new array; the input is not mutated.
pub fn non_maxima_supression(magnitudes: &Array3<i64>, rotations: &Array3<i64>) -> (out: Array3<
    i64,
>)
    requires
        magnitudes@.wf(),
        rotations@.wf(),
        magnitudes@.rows == rotations@.rows,
        magnitudes@.cols == rotations@.cols,
        magnitudes@.chans >= 1,
        rotations@.chans >= 1,
        magnitudes@.rows * magnitudes@.cols <= usize::MAX,
    ensures
        is_nms_of(out@, magnitudes@, rotations@),
{
    let _len: usize = magnitudes.data.len();
    let mut out: Array3<i64> = Array3::filled(
        magnitudes.rows,
        magnitudes.cols,
        magnitudes.channels,
        0,
    );
    let mut r: usize = 0;
    while r < magnitudes.rows
        invariant
            r <= magnitudes@.rows,
            magnitudes@.wf(),
            rotations@.wf(),
            magnitudes@.rows == rotations@.rows,
            magnitudes@.cols == rotations@.cols,
            magnitudes@.chans >= 1,
            rotations@.chans >= 1,
            out@.wf(),
            out@.rows == magnitudes@.rows && out@.cols == magnitudes@.cols && out@.chans
                == magnitudes@.chans,
            forall|r2: int, c2: int, ch2: int|
                out@.in_bounds(r2, c2, ch2) && r2 < r ==> #[trigger] out@.val(r2, c2, ch2) as int
                    == nms_val(magnitudes@, rotations@, r2, c2, ch2),
        decreases magnitudes@.rows - r,
    {
        let mut c: usize = 0;
        while c < magnitudes.cols
            invariant
                r < magnitudes@.rows,
                c <= magnitudes@.cols,
                magnitudes@.wf(),
                rotations@.wf(),
                magnitudes@.rows == rotations@.rows,
                magnitudes@.cols == rotations@.cols,
                magnitudes@.chans >= 1,
                rotations@.chans >= 1,
                out@.wf(),
                out@.rows == magnitudes@.rows && out@.cols == magnitudes@.cols && out@.chans
                    == magnitudes@.chans,
                forall|r2: int, c2: int, ch2: int|
                    out@.in_bounds(r2, c2, ch2) && (r2 < r || (r2 == r && c2 < c))
                        ==> #[trigger] out@.val(r2, c2, ch2) as int == nms_val(
                        magnitudes@,
                        rotations@,
                        r2,
                        c2,
                        ch2,
                    ),
            decreases magnitudes@.cols - c,
        {
            let mut d: i64 = rot_degrees(rotations.elem(r, c, 0));
            if d >= 180 {
                d = d - 180;
            } else if d < 0 {
                d = d + 180;
            }
            let (dr, dc): (i64, i64) = if d < 45 {
                (0, -1)
            } else if d < 90 {
                (-1, 1)
            } else if d < 135 {
                (-1, 0)
            } else {
                (-1, -1)
            };
            proof {
                assert((dr as int, dc as int) == dir_delta(
                    rotations@.val(r as int, c as int, 0) as int,
                ));
            }
            let centre: i64 = magnitudes.elem(r, c, 0);
            let a: i64 = read_nbr(magnitudes, r, c, dr, dc);
            let b: i64 = read_nbr(magnitudes, r, c, -dr, -dc);
            let keep: bool = !(a > centre || b > centre);
            proof {
                assert(keep == !suppressed(magnitudes@, rotations@, r as int, c as int));
            }
            let mut ch: usize = 0;
            while ch < magnitudes.channels
                invariant
                    r < magnitudes@.rows,
                    c < magnitudes@.cols,
                    ch <= magnitudes@.chans,
                    magnitudes@.wf(),
                    rotations@.wf(),
                    magnitudes@.chans >= 1,
                    keep == !suppressed(magnitudes@, rotations@, r as int, c as int),
                    out@.wf(),
                    out@.rows == magnitudes@.rows && out@.cols == magnitudes@.cols && out@.chans
                        == magnitudes@.chans,
                    forall|r2: int, c2: int, ch2: int|
                        out@.in_bounds(r2, c2, ch2) && (r2 < r || (r2 == r && c2 < c) || (r2 == r
                            && c2 == c && ch2 < ch)) ==> #[trigger] out@.val(r2, c2, ch2) as int
                            == nms_val(magnitudes@, rotations@, r2, c2, ch2),
                decreases magnitudes@.chans - ch,
            {
                let v: i64 = if keep {
                    magnitudes.elem(r, c, ch)
                } else {
                    0
                };
                out.set_elem(r, c, ch, v);
                ch = ch + 1;
            }
            c = c + 1;
        }
        r = r + 1;
    }
    out
}

/// Suppression is idempotent on nonnegative magnitude fields: suppressing an
/// already-suppressed field (against the same directions) changes nothing.
/// A pixel already zeroed stays zero, and a surviving local maximum, compared
/// against the same neighbours, remains a local maximum.
pub proof fn lemma_nms_idempotent(
    m: GridSpec<i64>,
    rot: GridSpec<i64>,
    m1: GridSpec<i64>,
    m2: GridSpec<i64>,
)
    requires
        m.wf(),
        m.chans >= 1,
        forall|r: int, c: int, ch: int| m.in_bounds(r, c, ch) ==> #[trigger] m.val(r, c, ch) >= 0,
        is_nms_of(m1, m, rot),
        is_nms_of(m2, m1, rot),
    ensures
        forall|r: int, c: int, ch: int|
            m2.in_bounds(r, c, ch) ==> #[trigger] m2.val(r, c, ch) == m1.val(r, c, ch),
{
    assert forall|r: int, c: int, ch: int| m2.in_bounds(r, c, ch) implies #[trigger] m2.val(
        r,
        c,
        ch,
    ) == m1.val(r, c, ch) by {
        let dd = dir_delta(rot.val(r, c, 0) as int);
        assert(m1.in_bounds(r, c, 0));
        assert(m.in_bounds(r, c, 0));
        assert(m1.in_bounds(r, c, ch));
        if suppressed(m, rot, r, c) {
            // The pixel was zeroed on every channel; it stays zero.
            assert(m1.val(r, c, ch) as int == nms_val(m, rot, r, c, ch));
            assert(m1.val(r, c, ch) == 0);
            assert(m2.val(r, c, ch) as int == nms_val(m1, rot, r, c, ch));
        } else {
            // The pixel survived: its direction neighbours in `m1` are no
            // larger than they were in `m`, so it survives again.
            assert(m1.val(r, c, 0) as int == nms_val(m, rot, r, c, 0));
            assert(m1.val(r, c, 0) == m.val(r, c, 0));
            assert(!suppressed(m1, rot, r, c)) by {
                lemma_nbr_not_larger(m, rot, m1, r, c, dd.0, dd.1);
                lemma_nbr_not_larger(m, rot, m1, r, c, -dd.0, -dd.1);
            }
            assert(m2.val(r, c, ch) as int == nms_val(m1, rot, r, c, ch));
            assert(m1.val(r, c, ch) as int == nms_val(m, rot, r, c, ch));
        }
    }
}

/// The magnitude at (r, c) after the lower-threshold cut: anything below
/// `lower` counts as no edge at all.
pub open spec fn thr_val(m: GridSpec<i64>, lower: int, r: int, c: int) -> int {
    if m.val(r, c, 0) as int >= lower {
        m.val(r, c, 0) as int
    } else {
        0
    }
}

/// A strong edge pixel: its cut magnitude reaches the upper threshold.
pub open spec fn strong_at(m: GridSpec<i64>, lower: int, upper: int, r: int, c: int) -> bool {
    m.in_grid(r, c) && thr_val(m, lower, r, c) >= upper
}

/// A pixel that qualifies for linking: its cut magnitude exceeds the lower
/// threshold.
pub open spec fn weak_at(m: GridSpec<i64>, lower: int, r: int, c: int) -> bool {
    m.in_grid(r, c) && thr_val(m, lower, r, c) > lower
}

/// The two pixels are distinct 8-neighbours on the grid lattice.
pub open spec fn adj8(r1: int, c1: int, r2: int, c2: int) -> bool {
    -1 <= r2 - r1 <= 1 && -1 <= c2 - c1 <= 1 && !(r2 == r1 && c2 == c1)
}

/// `p` is a chain of lattice pixels that starts at a strong pixel, moves
/// between 8-neighbours, passes only through qualifying pixels after the
/// start, and ends at (r, c).
pub open spec fn is_edge_path(
    m: GridSpec<i64>,
    lower: int,
    upper: int,
    p: Seq<(int, int)>,
    r: int,
    c: int,
) -> bool {
    &&& p.len() >= 1
    &&& strong_at(m, lower, upper, p[0].0, p[0].1)
    &&& p.last() == (r, c)
    &&& forall|i: int|
        1 <= i < p.len() ==> weak_at(m, lower, (#[trigger] p[i]).0, p[i].1) && adj8(
            p[i - 1].0,
            p[i - 1].1,
            p[i].0,
            p[i].1,
        )
}

/// (r, c) belongs to the edge mask: it is strong itself, or a chain of
/// qualifying pixels connects it to a strong pixel.
#[verifier::opaque]
pub open spec fn linked(m: GridSpec<i64>, lower: int, upper: int, r: int, c: int) -> bool {
    exists|p: Seq<(int, int)>| is_edge_path(m, lower, upper, p, r, c)
}

/// A strong pixel is linked, by the one-pixel chain.
pub proof fn lemma_linked_strong(m: GridSpec<i64>, lower: int, upper: int, r: int, c: int)
    requires
        strong_at(m, lower, upper, r, c),
    ensures
        linked(m, lower, upper, r, c),
{
    reveal(linked);
    let p: Seq<(int, int)> = seq![(r, c)];
    assert(p.last() == (r, c));
    assert(is_edge_path(m, lower, upper, p, r, c));
}

/// A qualifying neighbour of a linked pixel is linked, by one chain step.
pub proof fn lemma_linked_step(
    m: GridSpec<i64>,
    lower: int,
    upper: int,
    r: int,
    c: int,
    r2: int,
    c2: int,
)
    requires
        linked(m, lower, upper, r, c),
        adj8(r, c, r2, c2),
        weak_at(m, lower, r2, c2),
    ensures
        linked(m, lower, upper, r2, c2),
{
    reveal(linked);
    let p: Seq<(int, int)> = choose|p: Seq<(int, int)>| is_edge_path(m, lower, upper, p, r, c);
    let p2 = p.push((r2, c2));
    assert(p2.last() == (r2, c2));
    assert forall|i: int| 1 <= i < p2.len() implies weak_at(m, lower, (#[trigger] p2[i]).0, p2[i].1)
        && adj8(p2[i - 1].0, p2[i - 1].1, p2[i].0, p2[i].1) by {
        if i < p.len() {
            assert(p2[i] == p[i]);
            assert(p2[i - 1] == p[i - 1]);
        } else {
            assert(p2[i] == (r2, c2));
            assert(p2[i - 1] == p[p.len() - 1]);
            assert(p[p.len() - 1] == (r, c));
        }
    }
    assert(is_edge_path(m, lower, upper, p2, r2, c2));
}

/// `mask` is the hysteresis edge mask of `m`: single-channel, of the grid's
/// shape, true exactly on the linked pixels.
pub open spec fn is_links_of(mask: GridSpec<bool>, m: GridSpec<i64>, lower: int, upper: int) -> bool {
    &&& mask.wf()
    &&& mask.rows == m.rows && mask.cols == m.cols && mask.chans == 1
    &&& forall|r: int, c: int|
        mask.in_grid(r, c) ==> #[trigger] mask.val(r, c, 0) == linked(m, lower, upper, r, c)
}

/// The flat index of pixel (r, c) in a row-major single-channel grid.
pub open spec fn fidx(cols: int, r: int, c: int) -> int {
    r * cols + c
}

/// In-grid pixels have flat indices inside the grid area.
proof fn lemma_fidx_bound(rows: int, cols: int, r: int, c: int)
    requires
        0 <= r < rows,
        0 <= c < cols,
    ensures
        0 <= fidx(cols, r, c) < rows * cols,
{
    assert(0 <= r * cols + c < rows * cols) by (nonlinear_arith)
        requires
            0 <= r < rows,
            0 <= c < cols,
    ;
}

/// Distinct in-grid pixels have distinct flat indices.
proof fn lemma_fidx_inj(cols: int, r1: int, c1: int, r2: int, c2: int)
    requires
        0 <= r1,
        0 <= r2,
        0 <= c1 < cols,
        0 <= c2 < cols,
        fidx(cols, r1, c1) == fidx(cols, r2, c2),
    ensures
        r1 == r2 && c1 == c2,
{
    vstd::arithmetic::div_mod::lemma_fundamental_div_mod_converse(r1 * cols + c1, cols, r1, c1);
    vstd::arithmetic::div_mod::lemma_fundamental_div_mod_converse(r2 * cols + c2, cols, r2, c2);
}

/// The number of false entries of a boolean sequence.
spec fn count_false(s: Seq<bool>) -> nat
    decreases s.len(),
{
    if s.len() == 0 {
        0
    } else {
        count_false(s.drop_last()) + if s.last() {
            0nat
        } else {
            1nat
        }
    }
}

/// Flipping a false entry to true lowers the false count by one.
proof fn lemma_count_false_update(s: Seq<bool>, i: int)
    requires
        0 <= i < s.len(),
        !s[i],
    ensures
        count_false(s) >= 1,
        count_false(s.update(i, true)) == count_false(s) - 1,
    decreases s.len(),
{
    let u = s.update(i, true);
    if i == s.len() - 1 {
        assert(u.drop_last() =~= s.drop_last());
        assert(u.last());
        assert(!s.last());
    } else {
        lemma_count_false_update(s.drop_last(), i);
        assert(u.drop_last() =~= s.drop_last().update(i, true));
        assert(u.last() == s.last());
    }
}

/// The offset of the `d`-th entry of the 8-neighbourhood.
spec fn delta8_s(d: int) -> (int, int) {
    if d == 0 {
        (-1int, -1int)
    } else if d == 1 {
        (-1int, 0int)
    } else if d == 2 {
        (-1int, 1int)
    } else if d == 3 {
        (0int, -1int)
    } else if d == 4 {
        (0int, 1int)
    } else if d == 5 {
        (1int, -1int)
    } else if d == 6 {
        (1int, 0int)
    } else {
        (1int, 1int)
    }
}

/// Every 8-neighbour offset appears in the delta table.
proof fn lemma_adj8_delta(r1: int, c1: int, r2: int, c2: int)
    requires
        adj8(r1, c1, r2, c2),
    ensures
        exists|d: int| 0 <= d < 8 && #[trigger] delta8_s(d) == (r2 - r1, c2 - c1),
{
    let dr = r2 - r1;
    let dc = c2 - c1;
    if dr == -1 && dc == -1 {
        assert(delta8_s(0) == (dr, dc));
    } else if dr == -1 && dc == 0 {
        assert(delta8_s(1) == (dr, dc));
    } else if dr == -1 && dc == 1 {
        assert(delta8_s(2) == (dr, dc));
    } else if dr == 0 && dc == -1 {
        assert(delta8_s(3) == (dr, dc));
    } else if dr == 0 && dc == 1 {
        assert(delta8_s(4) == (dr, dc));
    } else if dr == 1 && dc == -1 {
        assert(delta8_s(5) == (dr, dc));
    } else if dr == 1 && dc == 0 {
        assert(delta8_s(6) == (dr, dc));
    } else {
        assert(delta8_s(7) == (dr, dc));
    }
}

/// Fetch the `d`-th entry of the 8-neighbourhood offset table.
fn delta8(d: usize) -> (dd: (i64, i64))
    requires
        d < 8,
    ensures
        (dd.0 as int, dd.1 as int) == delta8_s(d as int),
{
    if d == 0 {
        (-1, -1)
    } else if d == 1 {
        (-1, 0)
    } else if d == 2 {
        (-1, 1)
    } else if d == 3 {
        (0, -1)
    } else if d == 4 {
        (0, 1)
    } else if d == 5 {
        (1, -1)
    } else if d == 6 {
        (1, 0)
    } else {
        (1, 1)
    }
}

/// A coordinate is on the worklist.
spec fn on_stack(stk: Seq<(usize, usize)>, r: int, c: int) -> bool {
    exists|i: int| 0 <= i < stk.len() && (#[trigger] stk[i]).0 == r && stk[i].1 == c
}

/// Every visited pixel is linked to a strong pixel.
spec fn vis_sound(vis: Seq<bool>, m: GridSpec<i64>, lower: int, upper: int) -> bool {
    forall|r: int, c: int|
        m.in_grid(r, c) && #[trigger] vis[fidx(m.cols, r, c)] ==> linked(m, lower, upper, r, c)
}

/// The mask holds exactly the strong pixels and the visited qualifying ones.
spec fn mask_tracks(
    msk: Seq<bool>,
    vis: Seq<bool>,
    m: GridSpec<i64>,
    lower: int,
    upper: int,
) -> bool {
    forall|r: int, c: int|
        m.in_grid(r, c) ==> (#[trigger] msk[fidx(m.cols, r, c)] <==> (strong_at(
            m,
            lower,
            upper,
            r,
            c,
        ) || (vis[fidx(m.cols, r, c)] && weak_at(m, lower, r, c))))
}

/// The worklist holds in-grid, visited, pairwise distinct coordinates.
spec fn stack_wf(stk: Seq<(usize, usize)>, vis: Seq<bool>, m: GridSpec<i64>) -> bool {
    &&& forall|i: int|
        0 <= i < stk.len() ==> m.in_grid((#[trigger] stk[i]).0 as int, stk[i].1 as int) && vis[fidx(
            m.cols,
            stk[i].0 as int,
            stk[i].1 as int,
        )]
    &&& forall|i: int, j: int| 0 <= i < j < stk.len() ==> #[trigger] stk[i] != #[trigger] stk[j]
}

/// Every visited pixel off the worklist already has all its qualifying
/// neighbours visited.
spec fn closure_holds(
    vis: Seq<bool>,
    stk: Seq<(usize, usize)>,
    m: GridSpec<i64>,
    lower: int,
) -> bool {
    forall|r: int, c: int, r2: int, c2: int|
        m.in_grid(r, c) && #[trigger] vis[fidx(m.cols, r, c)] && !on_stack(stk, r, c)
            && #[trigger] adj8(r, c, r2, c2) && weak_at(m, lower, r2, c2) ==> vis[fidx(
            m.cols,
            r2,
            c2,
        )]
}

/// With the worklist drained and every strong pixel visited, the visited set
/// absorbs every linked pixel.
proof fn lemma_flood_complete(
    m: GridSpec<i64>,
    lower: int,
    upper: int,
    vis: Seq<bool>,
    p: Seq<(int, int)>,
    r: int,
    c: int,
)
    requires
        forall|r2: int, c2: int|
            strong_at(m, lower, upper, r2, c2) ==> #[trigger] vis[fidx(m.cols, r2, c2)],
        closure_holds(vis, Seq::empty(), m, lower),
        is_edge_path(m, lower, upper, p, r, c),
    ensures
        vis[fidx(m.cols, r, c)],
    decreases p.len(),
{
    if p.len() == 1 {
        assert(p[0] == (r, c));
        assert(strong_at(m, lower, upper, r, c));
    } else {
        let n = p.len() as int;
        let q = p[n - 2];
        let pp = p.drop_last();
        assert forall|i: int| 1 <= i < pp.len() implies weak_at(
            m,
            lower,
            (#[trigger] pp[i]).0,
            pp[i].1,
        ) && adj8(pp[i - 1].0, pp[i - 1].1, pp[i].0, pp[i].1) by {
            assert(pp[i] == p[i]);
            assert(pp[i - 1] == p[i - 1]);
            assert(weak_at(m, lower, (p[i]).0, p[i].1) && adj8(
                p[i - 1].0,
                p[i - 1].1,
                p[i].0,
                p[i].1,
            ));
        }
        assert(pp.last() == q);
        assert(is_edge_path(m, lower, upper, pp, q.0, q.1));
        lemma_flood_complete(m, lower, upper, vis, pp, q.0, q.1);
        assert(weak_at(m, lower, (p[n - 1]).0, p[n - 1].1) && adj8(
            p[n - 2].0,
            p[n - 2].1,
            p[n - 1].0,
            p[n - 1].1,
        ));
        assert(p[n - 1] == (r, c));
        assert(m.in_grid(q.0, q.1)) by {
            if n - 2 == 0 {
                assert(strong_at(m, lower, upper, q.0, q.1));
            } else {
                assert(weak_at(m, lower, (p[n - 2]).0, p[n - 2].1));
            }
        }
        assert(!on_stack(Seq::empty(), q.0, q.1));
        assert(adj8(q.0, q.1, r, c));
        assert(vis[fidx(m.cols, q.0, q.1)]);
    }
}

/// Delta `d` of pixel (pr, pc) has been dealt with: if the neighbour there
/// qualifies, it is visited.
spec fn delta_handled(
    vis: Seq<bool>,
    m: GridSpec<i64>,
    lower: int,
    pr: int,
    pc: int,
    d: int,
) -> bool {
    weak_at(m, lower, pr + delta8_s(d).0, pc + delta8_s(d).1) ==> vis[fidx(
        m.cols,
        pr + delta8_s(d).0,
        pc + delta8_s(d).1,
    )]
}

/// Closure holds for every visited off-worklist pixel except possibly the
/// one currently being expanded.
spec fn closure_except(
    vis: Seq<bool>,
    stk: Seq<(usize, usize)>,
    m: GridSpec<i64>,
    lower: int,
    pr: int,
    pc: int,
) -> bool {
    forall|r: int, c: int, r2: int, c2: int|
        m.in_grid(r, c) && #[trigger] vis[fidx(m.cols, r, c)] && !on_stack(stk, r, c) && !(r == pr
            && c == pc) && #[trigger] adj8(r, c, r2, c2) && weak_at(m, lower, r2, c2) ==> vis[fidx(
            m.cols,
            r2,
            c2,
        )]
}

/// Marking a linked, qualifying-or-strong pixel visited (and true in the
/// mask) preserves the soundness of the visited set and the mask account.
proof fn lemma_visit_preserves(
    m: GridSpec<i64>,
    lower: int,
    upper: int,
    vis: Seq<bool>,
    msk: Seq<bool>,
    qr: int,
    qc: int,
)
    requires
        vis.len() == m.rows * m.cols,
        msk.len() == m.rows * m.cols,
        m.in_grid(qr, qc),
        vis_sound(vis, m, lower, upper),
        mask_tracks(msk, vis, m, lower, upper),
        linked(m, lower, upper, qr, qc),
        weak_at(m, lower, qr, qc) || strong_at(m, lower, upper, qr, qc),
    ensures
        vis_sound(vis.update(fidx(m.cols, qr, qc), true), m, lower, upper),
        mask_tracks(
            msk.update(fidx(m.cols, qr, qc), true),
            vis.update(fidx(m.cols, qr, qc), true),
            m,
            lower,
            upper,
        ),
{
    let qi = fidx(m.cols, qr, qc);
    lemma_fidx_bound(m.rows, m.cols, qr, qc);
    let vis2 = vis.update(qi, true);
    let msk2 = msk.update(qi, true);
    assert forall|r: int, c: int| m.in_grid(r, c) && #[trigger] vis2[fidx(m.cols, r, c)] implies
        linked(m, lower, upper, r, c) by {
        lemma_fidx_bound(m.rows, m.cols, r, c);
        if fidx(m.cols, r, c) == qi {
            lemma_fidx_inj(m.cols, r, c, qr, qc);
        }
    }
    assert forall|r: int, c: int| m.in_grid(r, c) implies (#[trigger] msk2[fidx(m.cols, r, c)]
        <==> (strong_at(m, lower, upper, r, c) || (vis2[fidx(m.cols, r, c)] && weak_at(
        m,
        lower,
        r,
        c,
    )))) by {
        lemma_fidx_bound(m.rows, m.cols, r, c);
        if fidx(m.cols, r, c) == qi {
            lemma_fidx_inj(m.cols, r, c, qr, qc);
            if !strong_at(m, lower, upper, r, c) {
                assert(weak_at(m, lower, r, c));
            }
        }
    }
}

/// After one suppression pass over a nonnegative field, a surviving pixel's
/// direction neighbour cannot exceed the bound it satisfied before the pass.
proof fn lemma_nbr_not_larger(
    m: GridSpec<i64>,
    rot: GridSpec<i64>,
    m1: GridSpec<i64>,
    r: int,
    c: int,
    dr: int,
    dc: int,
)
    requires
        m.wf(),
        m.chans >= 1,
        forall|r2: int, c2: int, ch2: int|
            m.in_bounds(r2, c2, ch2) ==> #[trigger] m.val(r2, c2, ch2) >= 0,
        is_nms_of(m1, m, rot),
        m.in_grid(r, c),
        nbr_mag(m, r, c, dr, dc) <= m.val(r, c, 0) as int,
        m.val(r, c, 0) >= 0,
    ensures
        nbr_mag(m1, r, c, dr, dc) <= m.val(r, c, 0) as int,
{
    if m1.in_grid(r + dr, c + dc) {
        assert(m1.in_bounds(r + dr, c + dc, 0));
        assert(m1.val(r + dr, c + dc, 0) as int == nms_val(m, rot, r + dr, c + dc, 0));
        assert(m.in_bounds(r + dr, c + dc, 0));
        assert(m.val(r + dr, c + dc, 0) >= 0);
    }
}

/// The bookkeeping shared by every step of the flood fill: the visited set
/// holds only linked pixels, and the mask holds exactly the strong pixels
/// and the visited qualifying ones.
spec fn flood_state(
    m: GridSpec<i64>,
    lower: int,
    upper: int,
    vis: Seq<bool>,
    msk: Seq<bool>,
) -> bool {
    &&& m.wf()
    &&& m.chans == 1
    &&& vis.len() == m.rows * m.cols
    &&& msk.len() == m.rows * m.cols
    &&& vis_sound(vis, m, lower, upper)
    &&& mask_tracks(msk, vis, m, lower, upper)
}

/// Examine the `d`-th neighbour of worklist pixel (pr, pc): a qualifying,
/// unvisited neighbour is marked visited and true in the mask and joins the
/// worklist.
fn visit_neighbour(
    m: &Array3<i64>,
    lower: i64,
    upper: i64,
    vis: &mut Vec<bool>,
    msk: &mut Vec<bool>,
    stk: &mut Vec<(usize, usize)>,
    pr: usize,
    pc: usize,
    d: usize,
)
    requires
        flood_state(m@, lower as int, upper as int, old(vis)@, old(msk)@),
        stack_wf(old(stk)@, old(vis)@, m@),
        closure_except(old(vis)@, old(stk)@, m@, lower as int, pr as int, pc as int),
        m@.in_grid(pr as int, pc as int),
        old(vis)@[fidx(m@.cols, pr as int, pc as int)],
        d < 8,
    ensures
        flood_state(m@, lower as int, upper as int, final(vis)@, final(msk)@),
        stack_wf(final(stk)@, final(vis)@, m@),
        closure_except(final(vis)@, final(stk)@, m@, lower as int, pr as int, pc as int),
        delta_handled(final(vis)@, m@, lower as int, pr as int, pc as int, d as int),
        forall|x: int| 0 <= x < old(vis)@.len() && old(vis)@[x] ==> final(vis)@[x],
        count_false(final(vis)@) * 9 + final(stk)@.len() <= count_false(old(vis)@) * 9 + old(
            stk,
        )@.len(),
{
    let ghost g: GridSpec<i64> = m@;
    let ghost lo: int = lower as int;
    let ghost up: int = upper as int;
    let (ddr, ddc): (i64, i64) = delta8(d);
    let rr: i128 = pr as i128 + ddr as i128;
    let cc: i128 = pc as i128 + ddc as i128;
    if !(rr >= 0 && cc >= 0 && rr < m.rows as i128 && cc < m.cols as i128) {
        // Out of the grid: nothing qualifies there.
        return ;
    }
    let qr: usize = rr as usize;
    let qc: usize = cc as usize;
    proof {
        lemma_fidx_bound(g.rows, g.cols, qr as int, qc as int);
    }
    let _cap: usize = vis.len();
    proof {
        assert(vis@.len() == g.rows * g.cols);
    }
    let qidx: usize = qr * m.cols + qc;
    if vis[qidx] {
        return ;
    }
    let qv: i64 = m.elem(qr, qc, 0);
    let qcut: i64 = if qv >= lower {
        qv
    } else {
        0
    };
    if !(qcut > lower) {
        return ;
    }
    let ghost vis0: Seq<bool> = vis@;
    let ghost msk0: Seq<bool> = msk@;
    let ghost stk0: Seq<(usize, usize)> = stk@;
    proof {
        assert(weak_at(g, lo, qr as int, qc as int));
        assert(adj8(pr as int, pc as int, qr as int, qc as int));
        lemma_linked_step(g, lo, up, pr as int, pc as int, qr as int, qc as int);
        lemma_visit_preserves(g, lo, up, vis@, msk@, qr as int, qc as int);
        lemma_count_false_update(vis@, qidx as int);
    }
    vis.set(qidx, true);
    msk.set(qidx, true);
    stk.push((qr, qc));
    proof {
        let stk2 = stk@;
        assert(stk2 =~= stk0.push((qr, qc)));
        assert(stack_wf(stk2, vis@, g)) by {
            assert forall|i: int| 0 <= i < stk2.len() implies g.in_grid(
                (#[trigger] stk2[i]).0 as int,
                stk2[i].1 as int,
            ) && vis@[fidx(g.cols, stk2[i].0 as int, stk2[i].1 as int)] by {
                if i < stk0.len() {
                    assert(stk2[i] == stk0[i]);
                    assert(vis0[fidx(g.cols, stk0[i].0 as int, stk0[i].1 as int)]);
                    lemma_fidx_bound(g.rows, g.cols, stk0[i].0 as int, stk0[i].1 as int);
                } else {
                    assert(stk2[i] == (qr, qc));
                }
            }
            assert forall|i: int, j: int| 0 <= i < j < stk2.len() implies #[trigger] stk2[i]
                != #[trigger] stk2[j] by {
                if j == stk0.len() {
                    assert(stk2[i] == stk0[i]);
                    if stk0[i] == (qr, qc) {
                        assert(vis0[fidx(g.cols, stk0[i].0 as int, stk0[i].1 as int)]);
                    }
                } else {
                    assert(stk2[i] == stk0[i]);
                    assert(stk2[j] == stk0[j]);
                }
            }
        }
        assert(closure_except(vis@, stk2, g, lo, pr as int, pc as int)) by {
            assert forall|r: int, c: int, r2: int, c2: int|
                g.in_grid(r, c) && #[trigger] vis@[fidx(g.cols, r, c)] && !on_stack(stk2, r, c)
                    && !(r == pr as int && c == pc as int) && #[trigger] adj8(r, c, r2, c2)
                    && weak_at(g, lo, r2, c2) implies vis@[fidx(g.cols, r2, c2)] by {
                lemma_fidx_bound(g.rows, g.cols, r, c);
                if fidx(g.cols, r, c) == fidx(g.cols, qr as int, qc as int) {
                    lemma_fidx_inj(g.cols, r, c, qr as int, qc as int);
                    assert(stk2[stk2.len() - 1] == (qr, qc));
                    assert(on_stack(stk2, r, c));
                } else {
                    assert(vis0[fidx(g.cols, r, c)]);
                    assert(!on_stack(stk0, r, c)) by {
                        if on_stack(stk0, r, c) {
                            let i: int = choose|i: int|
                                0 <= i < stk0.len() && (#[trigger] stk0[i]).0 == r && stk0[i].1
                                    == c;
                            assert(stk2[i] == stk0[i]);
                            assert(on_stack(stk2, r, c));
                        }
                    }
                    assert(vis0[fidx(g.cols, r2, c2)]);
                    lemma_fidx_bound(g.rows, g.cols, r2, c2);
                }
            }
        }
        assert(delta_handled(vis@, g, lo, pr as int, pc as int, d as int));
        assert(count_false(vis@) * 9 + stk@.len() <= count_false(vis0) * 9 + stk0.len()) by {
            assert(count_false(vis@) == count_false(vis0) - 1);
            assert((count_false(vis0) - 1) * 9 == count_false(vis0) * 9 - 9) by (nonlinear_arith);
        }
    }
}

/// Flood fill outward from the strong seed (sr, sc): mark it and, through a
/// worklist, every qualifying pixel transitively 8-connected to it.
fn expand_from(
    m: &Array3<i64>,
    lower: i64,
    upper: i64,
    vis: &mut Vec<bool>,
    msk: &mut Vec<bool>,
    sr: usize,
    sc: usize,
)
    requires
        flood_state(m@, lower as int, upper as int, old(vis)@, old(msk)@),
        closure_holds(old(vis)@, Seq::empty(), m@, lower as int),
        strong_at(m@, lower as int, upper as int, sr as int, sc as int),
        !old(vis)@[fidx(m@.cols, sr as int, sc as int)],
    ensures
        flood_state(m@, lower as int, upper as int, final(vis)@, final(msk)@),
        closure_holds(final(vis)@, Seq::empty(), m@, lower as int),
        forall|x: int| 0 <= x < old(vis)@.len() && old(vis)@[x] ==> final(vis)@[x],
        final(vis)@[fidx(m@.cols, sr as int, sc as int)],
{
    let ghost g: GridSpec<i64> = m@;
    let ghost lo: int = lower as int;
    let ghost up: int = upper as int;
    let ghost entry_vis: Seq<bool> = vis@;
    proof {
        lemma_fidx_bound(g.rows, g.cols, sr as int, sc as int);
        lemma_linked_strong(g, lo, up, sr as int, sc as int);
        lemma_visit_preserves(g, lo, up, vis@, msk@, sr as int, sc as int);
        lemma_count_false_update(vis@, fidx(g.cols, sr as int, sc as int));
    }
    let _cap: usize = vis.len();
    proof {
        assert(vis@.len() == g.rows * g.cols);
    }
    let idx: usize = sr * m.cols + sc;
    vis.set(idx, true);
    msk.set(idx, true);
    let mut stk: Vec<(usize, usize)> = Vec::new();
    stk.push((sr, sc));
    proof {
        assert(stack_wf(stk@, vis@, g)) by {
            assert forall|i: int| 0 <= i < stk@.len() implies g.in_grid(
                (#[trigger] stk@[i]).0 as int,
                stk@[i].1 as int,
            ) && vis@[fidx(g.cols, stk@[i].0 as int, stk@[i].1 as int)] by {
                assert(stk@[i] == (sr, sc));
            }
        }
        assert(closure_holds(vis@, stk@, g, lo)) by {
            assert(stk@[0] == (sr, sc));
            assert forall|r: int, c: int, r2: int, c2: int|
                g.in_grid(r, c) && #[trigger] vis@[fidx(g.cols, r, c)] && !on_stack(stk@, r, c)
                    && #[trigger] adj8(r, c, r2, c2) && weak_at(g, lo, r2, c2) implies vis@[fidx(
                g.cols,
                r2,
                c2,
            )] by {
                lemma_fidx_bound(g.rows, g.cols, r, c);
                if fidx(g.cols, r, c) == fidx(g.cols, sr as int, sc as int) {
                    lemma_fidx_inj(g.cols, r, c, sr as int, sc as int);
                    assert(on_stack(stk@, r, c));
                } else {
                    assert(entry_vis[fidx(g.cols, r, c)]);
                    assert(!on_stack(Seq::<(usize, usize)>::empty(), r, c));
                    assert(entry_vis[fidx(g.cols, r2, c2)]);
                    lemma_fidx_bound(g.rows, g.cols, r2, c2);
                }
            }
        }
    }
    while stk.len() > 0
        invariant
            g == m@,
            lo == lower as int,
            up == upper as int,
            flood_state(g, lo, up, vis@, msk@),
            stack_wf(stk@, vis@, g),
            closure_holds(vis@, stk@, g, lo),
            forall|x: int| 0 <= x < entry_vis.len() && entry_vis[x] ==> vis@[x],
            entry_vis.len() == vis@.len(),
            g.in_grid(sr as int, sc as int),
            vis@[fidx(g.cols, sr as int, sc as int)],
        decreases count_false(vis@) * 9 + stk@.len(),
    {
        let ghost stk0: Seq<(usize, usize)> = stk@;
        let p: (usize, usize) = match stk.pop() {
            Some(pp) => pp,
            None => {
                proof {
                    assert(false);
                }
                (0, 0)
            },
        };
        let (pr, pc): (usize, usize) = p;
        proof {
            assert(stk@ =~= stk0.drop_last());
            assert(p == stk0[stk0.len() - 1]);
            assert(g.in_grid(pr as int, pc as int) && vis@[fidx(g.cols, pr as int, pc as int)]);
            assert(!on_stack(stk@, pr as int, pc as int)) by {
                if on_stack(stk@, pr as int, pc as int) {
                    let i: int = choose|i: int|
                        0 <= i < stk@.len() && (#[trigger] stk@[i]).0 == pr as int && stk@[i].1
                            == pc as int;
                    assert(stk@[i] == stk0[i]);
                    assert(stk0[i] == stk0[stk0.len() - 1]);
                }
            }
            assert(closure_except(vis@, stk@, g, lo, pr as int, pc as int)) by {
                assert forall|r: int, c: int, r2: int, c2: int|
                    g.in_grid(r, c) && #[trigger] vis@[fidx(g.cols, r, c)] && !on_stack(
                        stk@,
                        r,
                        c,
                    ) && !(r == pr as int && c == pc as int) && #[trigger] adj8(r, c, r2, c2)
                        && weak_at(g, lo, r2, c2) implies vis@[fidx(g.cols, r2, c2)] by {
                    assert(!on_stack(stk0, r, c)) by {
                        if on_stack(stk0, r, c) {
                            let i: int = choose|i: int|
                                0 <= i < stk0.len() && (#[trigger] stk0[i]).0 == r && stk0[i].1
                                    == c;
                            if i < stk0.len() - 1 {
                                assert(stk@[i] == stk0[i]);
                                assert(on_stack(stk@, r, c));
                            } else {
                                assert(stk0[i] == (pr, pc));
                            }
                        }
                    }
                }
            }
        }
        let ghost bound: int = count_false(vis@) * 9 + stk@.len() as int;
        let ghost mid_vis: Seq<bool> = vis@;
        let mut d: usize = 0;
        while d < 8
            invariant
                d <= 8,
                g == m@,
                lo == lower as int,
                up == upper as int,
                flood_state(g, lo, up, vis@, msk@),
                stack_wf(stk@, vis@, g),
                closure_except(vis@, stk@, g, lo, pr as int, pc as int),
                g.in_grid(pr as int, pc as int),
                vis@[fidx(g.cols, pr as int, pc as int)],
                forall|d2: int|
                    0 <= d2 < d ==> #[trigger] delta_handled(vis@, g, lo, pr as int, pc as int, d2),
                count_false(vis@) * 9 + stk@.len() <= bound,
                mid_vis.len() == vis@.len(),
                forall|x: int| 0 <= x < mid_vis.len() && mid_vis[x] ==> vis@[x],
            decreases 8 - d,
        {
            let ghost pre_vis: Seq<bool> = vis@;
            visit_neighbour(m, lower, upper, vis, msk, &mut stk, pr, pc, d);
            d = d + 1;
            proof {
                lemma_fidx_bound(g.rows, g.cols, pr as int, pc as int);
                assert(pre_vis[fidx(g.cols, pr as int, pc as int)]);
                assert forall|d2: int| 0 <= d2 < d implies #[trigger] delta_handled(
                    vis@,
                    g,
                    lo,
                    pr as int,
                    pc as int,
                    d2,
                ) by {
                    if d2 < d - 1 {
                        assert(delta_handled(pre_vis, g, lo, pr as int, pc as int, d2));
                        let dd = delta8_s(d2);
                        if weak_at(g, lo, pr as int + dd.0, pc as int + dd.1) {
                            lemma_fidx_bound(g.rows, g.cols, pr as int + dd.0, pc as int + dd.1);
                        }
                    }
                }
            }
        }
        proof {
            lemma_fidx_bound(g.rows, g.cols, sr as int, sc as int);
            assert(mid_vis[fidx(g.cols, sr as int, sc as int)]);
            // All eight neighbours are handled: full closure is restored.
            assert(closure_holds(vis@, stk@, g, lo)) by {
                assert forall|r: int, c: int, r2: int, c2: int|
                    g.in_grid(r, c) && #[trigger] vis@[fidx(g.cols, r, c)] && !on_stack(
                        stk@,
                        r,
                        c,
                    ) && #[trigger] adj8(r, c, r2, c2) && weak_at(g, lo, r2, c2) implies vis@[fidx(
                    g.cols,
                    r2,
                    c2,
                )] by {
                    if r == pr as int && c == pc as int {
                        lemma_adj8_delta(r, c, r2, c2);
                        let d2: int = choose|d2: int|
                            0 <= d2 < 8 && #[trigger] delta8_s(d2) == (r2 - r, c2 - c);
                        assert(delta_handled(vis@, g, lo, r, c, d2));
                        assert(r + delta8_s(d2).0 == r2);
                        assert(c + delta8_s(d2).1 == c2);
                    }
                }
            }
        }
    }
    proof {
        assert(closure_holds(vis@, Seq::empty(), g, lo)) by {
            assert forall|r: int, c: int, r2: int, c2: int|
                g.in_grid(r, c) && #[trigger] vis@[fidx(g.cols, r, c)] && !on_stack(
                    Seq::empty(),
                    r,
                    c,
                ) && #[trigger] adj8(r, c, r2, c2) && weak_at(g, lo, r2, c2) implies vis@[fidx(
                g.cols,
                r2,
                c2,
            )] by {
                assert(!on_stack(stk@, r, c));
            }
        }
    }
}

impl Array3<i64> {
    /// Hysteresis edge linking. Magnitudes below `lower` count as no edge;
    /// magnitudes at or above `upper` seed strong edges; a flood fill from
    /// every strong pixel absorbs, transitively through the 8-neighbourhood,
    /// every pixel whose cut magnitude exceeds `lower`. The mask is true
    /// exactly on the pixels so linked.
    pub fn link_edges(self, lower: i64, upper: i64) -> (out: Array3<bool>)
        requires
            self@.wf(),
            self@.chans == 1,
        ensures
            is_links_of(out@, self@, lower as int, upper as int),
    {
        let ghost g: GridSpec<i64> = self@;
        let ghost lo: int = lower as int;
        let ghost up: int = upper as int;
        let rows: usize = self.rows;
        let cols: usize = self.cols;
        let rc: usize = self.data.len();
        proof {
            assert(rc == g.rows * g.cols * 1);
            assert(g.rows * g.cols * 1 == g.rows * g.cols) by (nonlinear_arith);
        }
        // The mask starts as the strong pixels; nothing is visited yet.
        let mut msk: Vec<bool> = Vec::new();
        let mut vis: Vec<bool> = Vec::new();
        let mut t: usize = 0;
        while t < rc
            invariant
                t <= rc,
                g == self@,
                g.wf(),
                g.chans == 1,
                rows == g.rows,
                cols == g.cols,
                rc == g.rows * g.cols,
                lo == lower as int,
                up == upper as int,
                msk@.len() == t,
                vis@.len() == t,
                forall|r: int, c: int|
                    g.in_grid(r, c) && #[trigger] fidx(g.cols, r, c) < t ==> msk@[fidx(
                        g.cols,
                        r,
                        c,
                    )] == strong_at(g, lo, up, r, c) && !vis@[fidx(g.cols, r, c)],
            decreases rc - t,
        {
            proof {
                assert(g.rows >= 1 && g.cols >= 1) by (nonlinear_arith)
                    requires
                        0 <= t < g.rows * g.cols,
                        g.rows >= 0,
                        g.cols >= 0,
                ;
                vstd::arithmetic::div_mod::lemma_fundamental_div_mod(t as int, g.cols);
                assert(t as int / g.cols < g.rows) by (nonlinear_arith)
                    requires
                        t as int == g.cols * (t as int / g.cols) + (t as int % g.cols),
                        0 <= t as int % g.cols,
                        t < g.rows * g.cols,
                        g.cols >= 1,
                ;
                assert(g.in_grid(t as int / g.cols, t as int % g.cols));
                assert(g.idx(t as int / g.cols, t as int % g.cols, 0) == t) by (nonlinear_arith)
                    requires
                        t as int == g.cols * (t as int / g.cols) + (t as int % g.cols),
                        g.chans == 1,
                ;
            }
            let v: i64 = self.data[t];
            let cut: i64 = if v >= lower {
                v
            } else {
                0
            };
            let s: bool = cut >= upper;
            proof {
                assert(v == g.val(t as int / g.cols, t as int % g.cols, 0));
                assert(s == strong_at(g, lo, up, t as int / g.cols, t as int % g.cols));
            }
            msk.push(s);
            vis.push(false);
            proof {
                assert forall|r: int, c: int|
                    g.in_grid(r, c) && #[trigger] fidx(g.cols, r, c) < t + 1 implies msk@[fidx(
                    g.cols,
                    r,
                    c,
                )] == strong_at(g, lo, up, r, c) && !vis@[fidx(g.cols, r, c)] by {
                    lemma_fidx_bound(g.rows, g.cols, r, c);
                    if fidx(g.cols, r, c) == t {
                        lemma_fidx_inj(g.cols, r, c, t as int / g.cols, t as int % g.cols);
                    }
                }
            }
            t = t + 1;
        }
        proof {
            assert forall|r: int, c: int| g.in_grid(r, c) implies #[trigger] fidx(g.cols, r, c)
                < rc && msk@[fidx(g.cols, r, c)] == strong_at(g, lo, up, r, c) && !vis@[fidx(
                g.cols,
                r,
                c,
            )] by {
                lemma_fidx_bound(g.rows, g.cols, r, c);
            }
            assert(vis_sound(vis@, g, lo, up));
            assert(mask_tracks(msk@, vis@, g, lo, up));
            assert(flood_state(g, lo, up, vis@, msk@));
        }
        // Flood fill from every strong pixel.
        let mut sr: usize = 0;
        while sr < rows
            invariant
                sr <= rows,
                g == self@,
                rows == g.rows,
                cols == g.cols,
                rc == g.rows * g.cols,
                lo == lower as int,
                up == upper as int,
                flood_state(g, lo, up, vis@, msk@),
                closure_holds(vis@, Seq::empty(), g, lo),
                forall|r: int, c: int|
                    g.in_grid(r, c) && r < sr && #[trigger] strong_at(g, lo, up, r, c)
                        ==> vis@[fidx(g.cols, r, c)],
            decreases rows - sr,
        {
            let mut sc: usize = 0;
            while sc < cols
                invariant
                    sr < rows,
                    sc <= cols,
                    g == self@,
                    rows == g.rows,
                    cols == g.cols,
                    rc == g.rows * g.cols,
                    lo == lower as int,
                    up == upper as int,
                    flood_state(g, lo, up, vis@, msk@),
                    closure_holds(vis@, Seq::empty(), g, lo),
                    forall|r: int, c: int|
                        g.in_grid(r, c) && (r < sr || (r == sr && c < sc)) && #[trigger] strong_at(
                            g,
                            lo,
                            up,
                            r,
                            c,
                        ) ==> vis@[fidx(g.cols, r, c)],
                decreases cols - sc,
            {
                proof {
                    lemma_fidx_bound(g.rows, g.cols, sr as int, sc as int);
                }
                let idx: usize = sr * cols + sc;
                let mv: i64 = self.elem(sr, sc, 0);
                let cut: i64 = if mv >= lower {
                    mv
                } else {
                    0
                };
                if cut >= upper && !vis[idx] {
                    proof {
                        assert(strong_at(g, lo, up, sr as int, sc as int));
                    }
                    expand_from(&self, lower, upper, &mut vis, &mut msk, sr, sc);
                }
                sc = sc + 1;
                proof {
                    assert forall|r: int, c: int|
                        g.in_grid(r, c) && (r < sr || (r == sr && c < sc)) && #[trigger] strong_at(
                            g,
                            lo,
                            up,
                            r,
                            c,
                        ) implies vis@[fidx(g.cols, r, c)] by {
                        lemma_fidx_bound(g.rows, g.cols, r, c);
                    }
                }
            }
            sr = sr + 1;
        }
        // Read the answer off the mask.
        proof {
            assert forall|r: int, c: int| g.in_grid(r, c) implies #[trigger] msk@[fidx(
                g.cols,
                r,
                c,
            )] == linked(g, lo, up, r, c) by {
                lemma_fidx_bound(g.rows, g.cols, r, c);
                if msk@[fidx(g.cols, r, c)] {
                    if strong_at(g, lo, up, r, c) {
                        lemma_linked_strong(g, lo, up, r, c);
                    } else {
                        assert(vis@[fidx(g.cols, r, c)]);
                    }
                } else {
                    if linked(g, lo, up, r, c) {
                        reveal(linked);
                        let p: Seq<(int, int)> = choose|p: Seq<(int, int)>|
                            is_edge_path(g, lo, up, p, r, c);
                        lemma_flood_complete(g, lo, up, vis@, p, r, c);
                        if !strong_at(g, lo, up, r, c) {
                            assert(p.len() >= 2) by {
                                if p.len() == 1 {
                                    assert(p[0] == (r, c));
                                }
                            }
                            assert(weak_at(g, lo, (p[p.len() - 1]).0, p[p.len() - 1].1));
                            assert(p[p.len() - 1] == (r, c));
                        }
                        assert(false);
                    }
                }
            }
        }
        let out: Array3<bool> = Array3::from_data(rows, cols, 1, msk);
        proof {
            assert(out@.wf());
            assert forall|r: int, c: int| out@.in_grid(r, c) implies #[trigger] out@.val(r, c, 0)
                == linked(g, lo, up, r, c) by {
                assert(out@.idx(r, c, 0) == (r * g.cols + c) * 1 + 0);
                assert((r * g.cols + c) * 1 + 0 == fidx(g.cols, r, c)) by (nonlinear_arith);
            }
        }
        out
    }
}

/// Parameters for the Canny edge detector.
#[derive(Clone, Debug)]
pub struct CannyParameters {
    /// The blur kernel, by default a Gaussian; other kernels can be
    /// substituted.
    pub blur: Array3<i64>,
    /// Lower threshold for weak edges, used during hysteresis edge linking.
    pub t1: i64,
    /// Upper threshold defining a strong edge.
    pub t2: i64,
}

/// `mask` is what the Canny pipeline produces from `inp`: the input is
/// blurred with the kernel, the Sobel magnitudes and directions of the
/// blurred image are taken, the magnitudes are thinned by non-maxima
/// suppression, and the edges of the result are linked by hysteresis.
pub open spec fn canny_stages(
    inp: GridSpec<i64>,
    blur: GridSpec<i64>,
    t1: i64,
    t2: i64,
    mask: GridSpec<bool>,
) -> bool {
    exists|b: GridSpec<i64>, mag: GridSpec<i64>, rot: GridSpec<i64>, s: GridSpec<i64>|
        {
            &&& #[trigger] is_conv_of(b, inp, blur, Padding::NoPadding)
            &&& #[trigger] is_sobel_mag_of(mag, b)
            &&& #[trigger] is_sobel_rot_of(rot, b)
            &&& #[trigger] is_nms_of(s, mag, rot)
            &&& is_links_of(mask, s, t1 as int, t2 as int)
        }
}

impl Array3<i64> {
    /// Run the Canny edge detector. Canny is specified as working on
    /// greyscale images, so a single-channel image is required; any other
    /// channel count is refused with `ChannelDimensionMismatch`. Convolution
    /// failures propagate as they are.
    pub fn canny_edge_detector(&self, params: CannyParameters) -> (res: Result<Array3<bool>, Error>)
        requires
            self@.wf(),
            params.blur@.wf(),
            params.blur@.rows >= 1,
            params.blur@.cols >= 1,
            self@.rows * self@.cols <= usize::MAX,
        ensures
            res is Ok <==> (self@.chans == 1 && params.blur@.chans == 1 && self@.rows > 0
                && self@.cols > 0),
            res matches Err(e) ==> if self@.chans != 1 || params.blur@.chans != 1 {
                e == Error::ChannelDimensionMismatch
            } else {
                e == Error::InvalidDimensions
            },
            res matches Ok(mask) ==> canny_stages(
                self@,
                params.blur@,
                params.t1,
                params.t2,
                mask@,
            ) && mask@.rows == self@.rows && mask@.cols == self@.cols && mask@.chans == 1,
    {
        if self.channels != 1 {
            return Err(Error::ChannelDimensionMismatch);
        }
        let blurred: Array3<i64> = match self.conv2d(&params.blur) {
            Ok(b) => b,
            Err(e) => {
                return Err(e);
            },
        };
        let (mag, rot): (Array3<i64>, Array3<i64>) = match blurred.full_sobel() {
            Ok(mr) => mr,
            Err(e) => {
                proof {
                    assert(false);
                }
                return Err(e);
            },
        };
        let thin: Array3<i64> = non_maxima_supression(&mag, &rot);
        let mask: Array3<bool> = thin.link_edges(params.t1, params.t2);
        proof {
            assert(is_conv_of(blurred@, self@, params.blur@, Padding::NoPadding));
            assert(is_sobel_mag_of(mag@, blurred@));
            assert(is_sobel_rot_of(rot@, blurred@));
            assert(is_nms_of(thin@, mag@, rot@));
            assert(is_links_of(mask@, thin@, params.t1 as int, params.t2 as int));
        }
        Ok(mask)
    }
}

/// Builder to construct the Canny parameters; any parameter not selected
/// gets a sensible default at `build` time.
#[derive(Clone, Debug)]
pub struct CannyBuilder {
    /// The chosen blur kernel, if any.
    pub blur: Option<Array3<i64>>,
    /// The chosen lower threshold, if any.
    pub t1: Option<i64>,
    /// The chosen upper threshold, if any.
    pub t2: Option<i64>,
}

/// The threshold that `build` resolves from a builder field: the chosen
/// value, or the default.
pub open spec fn resolve_threshold(chosen: Option<i64>, dflt: i64) -> i64 {
    match chosen {
        Some(t) => t,
        None => dflt,
    }
}

impl CannyBuilder {
    /// Creates a new builder with no parameters selected.
    pub fn new() -> (r: CannyBuilder)
        ensures
            r.blur is None,
            r.t1 is None,
            r.t2 is None,
    {
        CannyBuilder { blur: None, t1: None, t2: None }
    }

    /// Sets the lower threshold for the parameters, returning a new builder.
    pub fn lower_threshold(self, t1: i64) -> (r: CannyBuilder)
        ensures
            r.t1 == Some(t1),
            r.t2 == self.t2,
            r.blur == self.blur,
    {
        CannyBuilder { blur: self.blur, t1: Some(t1), t2: self.t2 }
    }

    /// Sets the upper threshold for the parameters, returning a new builder.
    pub fn upper_threshold(self, t2: i64) -> (r: CannyBuilder)
        ensures
            r.t2 == Some(t2),
            r.t1 == self.t1,
            r.blur == self.blur,
    {
        CannyBuilder { blur: self.blur, t1: self.t1, t2: Some(t2) }
    }

    /// Given a (rows, cols) shape and an x/y covariance pair in micro-units,
    /// constructs a Gaussian blur to be used with the edge detector. A shape
    /// or covariance the Gaussian builder refuses leaves the builder
    /// unchanged.
    pub fn blur(self, shape: (usize, usize), covariance: [i64; 2]) -> (r: CannyBuilder)
        requires
            gauss_shape_ok((shape.0, shape.1, 1)) ==> shape.0 * shape.1 <= usize::MAX,
        ensures
            r.t1 == self.t1,
            r.t2 == self.t2,
            gauss_shape_ok((shape.0, shape.1, 1)) && covariance[0] > 0 && covariance[1] > 0 ==> (
            r.blur matches Some(b) && is_gauss_kernel(
                b@,
                (shape.0, shape.1, 1),
                covariance[0] as int,
                covariance[1] as int,
            )),
            !(gauss_shape_ok((shape.0, shape.1, 1)) && covariance[0] > 0 && covariance[1] > 0)
                ==> r.blur == self.blur,
    {
        proof {
            assert(shape.0 * shape.1 * 1 == shape.0 * shape.1) by (nonlinear_arith);
        }
        match GaussianFilter::build_with_params((shape.0, shape.1, 1), covariance) {
            Ok(b) => CannyBuilder { blur: Some(b), t1: self.t1, t2: self.t2 },
            Err(_) => self,
        }
    }

    /// Creates the Canny parameters, with sensible defaults for unspecified
    /// parameters: a lower threshold of 0.3, an upper threshold of 0.7 (both
    /// in micro-units) and a 5x5 Gaussian blur with covariances of 2.0. The
    /// thresholds are rearranged if needed so that `t1 <= t2` always holds.
    pub fn build(self) -> (r: CannyParameters)
        ensures
            r.t1 <= r.t2,
            ({
                let dt1 = resolve_threshold(self.t1, 300_000);
                let dt2 = resolve_threshold(self.t2, 700_000);
                if dt2 < dt1 {
                    r.t1 == dt2 && r.t2 == dt1
                } else {
                    r.t1 == dt1 && r.t2 == dt2
                }
            }),
            self.blur matches Some(b) ==> r.blur == b,
            self.blur is None ==> is_gauss_kernel(r.blur@, (5, 5, 1), 2_000_000, 2_000_000),
    {
        let blur: Array3<i64> = match self.blur {
            Some(b) => b,
            None => {
                match GaussianFilter::build_with_params((5, 5, 1), [2_000_000, 2_000_000]) {
                    Ok(b) => b,
                    Err(_) => {
                        proof {
                            assert(false);
                        }
                        Array3::filled(5, 5, 1, 0)
                    },
                }
            },
        };
        let mut t1: i64 = match self.t1 {
            Some(t) => t,
            None => 300_000,
        };
        let mut t2: i64 = match self.t2 {
            Some(t) => t,
            None => 700_000,
        };
        if t2 < t1 {
            let tmp: i64 = t1;
            t1 = t2;
            t2 = tmp;
        }
        CannyParameters { blur, t1, t2 }
    }
}

} // verus!
