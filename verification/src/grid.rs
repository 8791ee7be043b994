//! The mathematical model: square boolean grids as `Seq<Seq<bool>>`, the
//! Life rule (B3/S23) on them, and the HashLife recurrence `hl_result`,
//! which maps a grid of side `n` to its centered half-side grid evolved
//! forward by `n / 4` generations (one generation when `n == 4`).

use vstd::prelude::*;

verus! {

/// A side length the evaluator accepts: a power of two, at least 2.
pub open spec fn valid_side(n: nat) -> bool
    decreases n,
{
    n == 2 || (n > 2 && n % 2 == 0 && valid_side(n / 2))
}

/// `g` is a square grid of side `n`: `n` rows, each of length `n`.
pub open spec fn grid_wf(g: Seq<Seq<bool>>, n: nat) -> bool {
    g.len() == n && (forall|i: int| 0 <= i < n ==> (#[trigger] g[i]).len() == n)
}

/// The `nr` x `nc` sub-grid of `g` whose top-left corner is `(r0, c0)`.
pub open spec fn sub_grid(g: Seq<Seq<bool>>, r0: int, c0: int, nr: int, nc: int) -> Seq<
    Seq<bool>,
> {
    Seq::new(nr as nat, |i: int| Seq::new(nc as nat, |j: int| g[r0 + i][c0 + j]))
}

/// The grid of side `2 * tl.len()` whose four quadrants are `tl`, `tr`,
/// `bl`, `br` (row 0 on top, column 0 on the left).
#[verifier::opaque]
pub open spec fn assemble4(
    tl: Seq<Seq<bool>>,
    tr: Seq<Seq<bool>>,
    bl: Seq<Seq<bool>>,
    br: Seq<Seq<bool>>,
) -> Seq<Seq<bool>> {
    let s = tl.len() as int;
    Seq::new(
        (2 * s) as nat,
        |i: int|
            Seq::new(
                (2 * s) as nat,
                |j: int|
                    if i < s {
                        if j < s {
                            tl[i][j]
                        } else {
                            tr[i][j - s]
                        }
                    } else {
                        if j < s {
                            bl[i - s][j]
                        } else {
                            br[i - s][j - s]
                        }
                    },
            ),
    )
}

/// Cell `(i, j)` of `g` is inside the grid and alive.
pub open spec fn cell_alive(g: Seq<Seq<bool>>, i: int, j: int) -> bool {
    0 <= i < g.len() && 0 <= j < g[i].len() && g[i][j]
}

pub open spec fn one_if(b: bool) -> int {
    if b {
        1
    } else {
        0
    }
}

/// How many of the eight neighbors of `(i, j)` are alive (cells outside
/// the grid count as dead).
#[verifier::opaque]
pub open spec fn live_neighbors(g: Seq<Seq<bool>>, i: int, j: int) -> int {
    one_if(cell_alive(g, i - 1, j - 1)) + one_if(cell_alive(g, i - 1, j)) + one_if(
        cell_alive(g, i - 1, j + 1),
    ) + one_if(cell_alive(g, i, j - 1)) + one_if(cell_alive(g, i, j + 1)) + one_if(
        cell_alive(g, i + 1, j - 1),
    ) + one_if(cell_alive(g, i + 1, j)) + one_if(cell_alive(g, i + 1, j + 1))
}

/// The Life rule B3/S23: a dead cell with exactly three live neighbors is
/// born; a live cell with two or three live neighbors survives.
#[verifier::opaque]
pub open spec fn next_cell(g: Seq<Seq<bool>>, i: int, j: int) -> bool {
    if cell_alive(g, i, j) {
        live_neighbors(g, i, j) == 2 || live_neighbors(g, i, j) == 3
    } else {
        live_neighbors(g, i, j) == 3
    }
}

/// One generation of the Life rule, applied to every cell of `g`.
pub open spec fn life_step(g: Seq<Seq<bool>>) -> Seq<Seq<bool>> {
    Seq::new(g.len(), |i: int| Seq::new(g[i].len(), |j: int| next_cell(g, i, j)))
}

/// Every cell of `g` is dead.
pub open spec fn all_dead(g: Seq<Seq<bool>>) -> bool {
    forall|i: int, j: int| 0 <= i < g.len() && 0 <= j < g[i].len() ==> !(#[trigger] g[i][j])
}

/// The HashLife recurrence. For a grid of side `n` it yields the centered
/// sub-grid of side `n / 2`, evolved forward by one generation when
/// `n == 4` and by `n / 4` generations when `n > 4`. The recursive case
/// takes the nine overlapping half-side windows of `g` (anchored at row
/// and column offsets `0`, `n/4` and `n/2`), recurses on each, and then
/// recurses on the four overlapping 2x2 arrangements of those nine
/// centers; the four outcomes tile the answer.
#[verifier::opaque]
pub open spec fn hl_result(g: Seq<Seq<bool>>, n: nat) -> Seq<Seq<bool>>
    decreases n,
{
    if n <= 4 {
        sub_grid(life_step(g), 1, 1, 2, 2)
    } else {
        let s = n / 2;
        let q = n / 4;
        let r00 = hl_result(sub_grid(g, 0, 0, s as int, s as int), s);
        let r01 = hl_result(sub_grid(g, 0, q as int, s as int, s as int), s);
        let r02 = hl_result(sub_grid(g, 0, 2 * q as int, s as int, s as int), s);
        let r10 = hl_result(sub_grid(g, q as int, 0, s as int, s as int), s);
        let r11 = hl_result(sub_grid(g, q as int, q as int, s as int, s as int), s);
        let r12 = hl_result(sub_grid(g, q as int, 2 * q as int, s as int, s as int), s);
        let r20 = hl_result(sub_grid(g, 2 * q as int, 0, s as int, s as int), s);
        let r21 = hl_result(sub_grid(g, 2 * q as int, q as int, s as int, s as int), s);
        let r22 = hl_result(sub_grid(g, 2 * q as int, 2 * q as int, s as int, s as int), s);
        let f00 = hl_result(assemble4(r00, r01, r10, r11), s);
        let f01 = hl_result(assemble4(r01, r02, r11, r12), s);
        let f10 = hl_result(assemble4(r10, r11, r20, r21), s);
        let f11 = hl_result(assemble4(r11, r12, r21, r22), s);
        assemble4(f00, f01, f10, f11)
    }
}

/// A well-formed grid of even side is the assembly of its four
/// quadrants.
#[verifier::rlimit(100)]
#[verifier::spinoff_prover]
pub proof fn lemma_assemble_sub_grids(g: Seq<Seq<bool>>, n: nat)
    requires
        grid_wf(g, n),
        n % 2 == 0,
    ensures
        assemble4(
            sub_grid(g, 0, 0, (n / 2) as int, (n / 2) as int),
            sub_grid(g, 0, (n / 2) as int, (n / 2) as int, (n / 2) as int),
            sub_grid(g, (n / 2) as int, 0, (n / 2) as int, (n / 2) as int),
            sub_grid(g, (n / 2) as int, (n / 2) as int, (n / 2) as int, (n / 2) as int),
        ) == g,
{
    reveal(assemble4);
    let h = (n / 2) as int;
    let a4 = assemble4(
        sub_grid(g, 0, 0, h, h),
        sub_grid(g, 0, h, h, h),
        sub_grid(g, h, 0, h, h),
        sub_grid(g, h, h, h, h),
    );
    assert forall|i: int| 0 <= i < n implies a4[i] =~= g[i] by {
        assert forall|j: int| 0 <= j < n implies a4[i][j] == g[i][j] by {
            if i < h {
                if j < h {
                    assert(a4[i][j] == sub_grid(g, 0, 0, h, h)[i][j]);
                } else {
                    assert(a4[i][j] == sub_grid(g, 0, h, h, h)[i][j - h]);
                }
            } else {
                if j < h {
                    assert(a4[i][j] == sub_grid(g, h, 0, h, h)[i - h][j]);
                } else {
                    assert(a4[i][j] == sub_grid(g, h, h, h, h)[i - h][j - h]);
                }
            }
        }
    }
    assert(a4 =~= g);
}

/// The grid of side `4 * q` tiled by sixteen `q`-sided grids `gg[a][b]`
/// (`a`, `b` in `0..4`), grouped quadrant by quadrant.
pub open spec fn grid16(gg: Seq<Seq<Seq<Seq<bool>>>>, q: nat) -> Seq<Seq<bool>> {
    assemble4(
        assemble4(gg[0][0], gg[0][1], gg[1][0], gg[1][1]),
        assemble4(gg[0][2], gg[0][3], gg[1][2], gg[1][3]),
        assemble4(gg[2][0], gg[2][1], gg[3][0], gg[3][1]),
        assemble4(gg[2][2], gg[2][3], gg[3][2], gg[3][3]),
    )
}

/// A sub-grid that agrees pointwise with a well-formed square grid is that
/// grid.
pub proof fn lemma_sub_grid_is(g: Seq<Seq<bool>>, r0: int, c0: int, t: Seq<Seq<bool>>, s: int)
    requires
        s >= 0,
        t.len() == s,
        forall|i: int| 0 <= i < s ==> (#[trigger] t[i]).len() == s,
        forall|i: int, j: int| 0 <= i < s && 0 <= j < s ==> g[r0 + i][c0 + j] == #[trigger] t[i][j],
    ensures
        sub_grid(g, r0, c0, s, s) == t,
{
    assert forall|i: int| 0 <= i < s implies sub_grid(g, r0, c0, s, s)[i] =~= t[i] by {}
    assert(sub_grid(g, r0, c0, s, s) =~= t);
}

/// Extracting a quadrant undoes `assemble4`.
#[verifier::rlimit(100)]
#[verifier::spinoff_prover]
pub proof fn lemma_assemble4_quadrants(
    tl: Seq<Seq<bool>>,
    tr: Seq<Seq<bool>>,
    bl: Seq<Seq<bool>>,
    br: Seq<Seq<bool>>,
    s: nat,
)
    requires
        s >= 1,
        grid_wf(tl, s),
        grid_wf(tr, s),
        grid_wf(bl, s),
        grid_wf(br, s),
    ensures
        sub_grid(assemble4(tl, tr, bl, br), 0, 0, s as int, s as int) == tl,
        sub_grid(assemble4(tl, tr, bl, br), 0, s as int, s as int, s as int) == tr,
        sub_grid(assemble4(tl, tr, bl, br), s as int, 0, s as int, s as int) == bl,
        sub_grid(assemble4(tl, tr, bl, br), s as int, s as int, s as int, s as int) == br,
{
    reveal(assemble4);
    let a4 = assemble4(tl, tr, bl, br);
    let si = s as int;
    assert forall|i: int, j: int| 0 <= i < si && 0 <= j < si implies a4[0 + i][0 + j] == #[trigger] tl[i][j] by {}
    lemma_sub_grid_is(a4, 0, 0, tl, si);
    assert forall|i: int, j: int| 0 <= i < si && 0 <= j < si implies a4[0 + i][si + j] == #[trigger] tr[i][j] by {}
    lemma_sub_grid_is(a4, 0, si, tr, si);
    assert forall|i: int, j: int| 0 <= i < si && 0 <= j < si implies a4[si + i][0 + j] == #[trigger] bl[i][j] by {}
    lemma_sub_grid_is(a4, si, 0, bl, si);
    assert forall|i: int, j: int| 0 <= i < si && 0 <= j < si implies a4[si + i][si + j] == #[trigger] br[i][j] by {}
    lemma_sub_grid_is(a4, si, si, br, si);
}

/// Any of the nine half-side windows of a grid tiled by sixteen
/// quarter-side grids is the 2x2 arrangement of the four tiles it covers.
#[verifier::rlimit(100)]
#[verifier::spinoff_prover]
pub proof fn lemma_grid16_window(gg: Seq<Seq<Seq<Seq<bool>>>>, q: nat, i: int, j: int)
    requires
        q >= 1,
        gg.len() == 4,
        forall|a: int| 0 <= a < 4 ==> (#[trigger] gg[a]).len() == 4,
        forall|a: int, b: int| 0 <= a < 4 && 0 <= b < 4 ==> grid_wf(#[trigger] gg[a][b], q),
        0 <= i <= 2,
        0 <= j <= 2,
    ensures
        sub_grid(grid16(gg, q), i * q, j * q, 2 * q as int, 2 * q as int) == assemble4(
            gg[i][j],
            gg[i][j + 1],
            gg[i + 1][j],
            gg[i + 1][j + 1],
        ),
{
    reveal(assemble4);
    let qi = q as int;
    let g = grid16(gg, q);
    let t = assemble4(gg[i][j], gg[i][j + 1], gg[i + 1][j], gg[i + 1][j + 1]);
    assert(gg[i][j].len() == q);
    assert forall|x: int, y: int| 0 <= x < 2 * qi && 0 <= y < 2 * qi implies g[i * qi + x][j * qi
        + y] == #[trigger] t[x][y] by {
        if i == 0 {
        } else if i == 1 {
        } else {
            assert(i == 2);
        }
        if j == 0 {
        } else if j == 1 {
        } else {
            assert(j == 2);
        }
    }
    lemma_sub_grid_is(g, i * qi, j * qi, t, 2 * qi);
}

/// The recurrence halves the side: on a well-formed grid of valid side
/// `n >= 4` it yields a well-formed grid of side `n / 2`.
#[verifier::rlimit(100)]
#[verifier::spinoff_prover]
pub proof fn lemma_hl_result_wf(g: Seq<Seq<bool>>, n: nat)
    requires
        grid_wf(g, n),
        valid_side(n),
        n >= 4,
    ensures
        grid_wf(hl_result(g, n), n / 2),
    decreases n,
{
    reveal(hl_result);
    reveal(assemble4);
    if n > 4 {
        let s = n / 2;
        let q = n / 4;
        assert(valid_side(s));
        assert(s >= 4);
        let si = s as int;
        let r00 = hl_result(sub_grid(g, 0, 0, si, si), s);
        let r01 = hl_result(sub_grid(g, 0, q as int, si, si), s);
        let r02 = hl_result(sub_grid(g, 0, 2 * q as int, si, si), s);
        let r10 = hl_result(sub_grid(g, q as int, 0, si, si), s);
        let r11 = hl_result(sub_grid(g, q as int, q as int, si, si), s);
        let r12 = hl_result(sub_grid(g, q as int, 2 * q as int, si, si), s);
        let r20 = hl_result(sub_grid(g, 2 * q as int, 0, si, si), s);
        let r21 = hl_result(sub_grid(g, 2 * q as int, q as int, si, si), s);
        let r22 = hl_result(sub_grid(g, 2 * q as int, 2 * q as int, si, si), s);
        lemma_hl_result_wf(sub_grid(g, 0, 0, si, si), s);
        lemma_hl_result_wf(sub_grid(g, 0, q as int, si, si), s);
        lemma_hl_result_wf(sub_grid(g, 0, 2 * q as int, si, si), s);
        lemma_hl_result_wf(sub_grid(g, q as int, 0, si, si), s);
        lemma_hl_result_wf(sub_grid(g, q as int, q as int, si, si), s);
        lemma_hl_result_wf(sub_grid(g, q as int, 2 * q as int, si, si), s);
        lemma_hl_result_wf(sub_grid(g, 2 * q as int, 0, si, si), s);
        lemma_hl_result_wf(sub_grid(g, 2 * q as int, q as int, si, si), s);
        lemma_hl_result_wf(sub_grid(g, 2 * q as int, 2 * q as int, si, si), s);
        lemma_hl_result_wf(assemble4(r00, r01, r10, r11), s);
        lemma_hl_result_wf(assemble4(r01, r02, r11, r12), s);
        lemma_hl_result_wf(assemble4(r10, r11, r20, r21), s);
        lemma_hl_result_wf(assemble4(r11, r12, r21, r22), s);
    }
}

/// An all-dead grid evolves to an all-dead center: no cell has three live
/// neighbors, so none is ever born.
#[verifier::rlimit(100)]
#[verifier::spinoff_prover]
pub proof fn lemma_hl_result_all_dead(g: Seq<Seq<bool>>, n: nat)
    requires
        grid_wf(g, n),
        valid_side(n),
        n >= 4,
        all_dead(g),
    ensures
        all_dead(hl_result(g, n)),
    decreases n,
{
    reveal(hl_result);
    reveal(assemble4);
    reveal(next_cell);
    reveal(live_neighbors);
    if n <= 4 {
        let r = hl_result(g, n);
        assert forall|i: int, j: int| 0 <= i < r.len() && 0 <= j < r[i].len() implies !(
        #[trigger] r[i][j]) by {
            assert(r[i][j] == next_cell(g, 1 + i, 1 + j));
            assert(live_neighbors(g, 1 + i, 1 + j) == 0);
        }
    } else {
        let s = n / 2;
        let q = n / 4;
        assert(valid_side(s));
        assert(s >= 4);
        assert(n % 4 == 0);
        let si = s as int;
        lemma_all_dead_window(g, n, 0, 0);
        lemma_all_dead_window(g, n, 0, q as int);
        lemma_all_dead_window(g, n, 0, 2 * q as int);
        lemma_all_dead_window(g, n, q as int, 0);
        lemma_all_dead_window(g, n, q as int, q as int);
        lemma_all_dead_window(g, n, q as int, 2 * q as int);
        lemma_all_dead_window(g, n, 2 * q as int, 0);
        lemma_all_dead_window(g, n, 2 * q as int, q as int);
        lemma_all_dead_window(g, n, 2 * q as int, 2 * q as int);
        let r00 = hl_result(sub_grid(g, 0, 0, si, si), s);
        let r01 = hl_result(sub_grid(g, 0, q as int, si, si), s);
        let r02 = hl_result(sub_grid(g, 0, 2 * q as int, si, si), s);
        let r10 = hl_result(sub_grid(g, q as int, 0, si, si), s);
        let r11 = hl_result(sub_grid(g, q as int, q as int, si, si), s);
        let r12 = hl_result(sub_grid(g, q as int, 2 * q as int, si, si), s);
        let r20 = hl_result(sub_grid(g, 2 * q as int, 0, si, si), s);
        let r21 = hl_result(sub_grid(g, 2 * q as int, q as int, si, si), s);
        let r22 = hl_result(sub_grid(g, 2 * q as int, 2 * q as int, si, si), s);
        lemma_hl_result_all_dead(sub_grid(g, 0, 0, si, si), s);
        lemma_hl_result_all_dead(sub_grid(g, 0, q as int, si, si), s);
        lemma_hl_result_all_dead(sub_grid(g, 0, 2 * q as int, si, si), s);
        lemma_hl_result_all_dead(sub_grid(g, q as int, 0, si, si), s);
        lemma_hl_result_all_dead(sub_grid(g, q as int, q as int, si, si), s);
        lemma_hl_result_all_dead(sub_grid(g, q as int, 2 * q as int, si, si), s);
        lemma_hl_result_all_dead(sub_grid(g, 2 * q as int, 0, si, si), s);
        lemma_hl_result_all_dead(sub_grid(g, 2 * q as int, q as int, si, si), s);
        lemma_hl_result_all_dead(sub_grid(g, 2 * q as int, 2 * q as int, si, si), s);
        lemma_hl_result_wf(sub_grid(g, 0, 0, si, si), s);
        lemma_hl_result_wf(sub_grid(g, 0, q as int, si, si), s);
        lemma_hl_result_wf(sub_grid(g, 0, 2 * q as int, si, si), s);
        lemma_hl_result_wf(sub_grid(g, q as int, 0, si, si), s);
        lemma_hl_result_wf(sub_grid(g, q as int, q as int, si, si), s);
        lemma_hl_result_wf(sub_grid(g, q as int, 2 * q as int, si, si), s);
        lemma_hl_result_wf(sub_grid(g, 2 * q as int, 0, si, si), s);
        lemma_hl_result_wf(sub_grid(g, 2 * q as int, q as int, si, si), s);
        lemma_hl_result_wf(sub_grid(g, 2 * q as int, 2 * q as int, si, si), s);
        lemma_all_dead_assemble4(r00, r01, r10, r11, s / 2);
        lemma_all_dead_assemble4(r01, r02, r11, r12, s / 2);
        lemma_all_dead_assemble4(r10, r11, r20, r21, s / 2);
        lemma_all_dead_assemble4(r11, r12, r21, r22, s / 2);
        let f00 = hl_result(assemble4(r00, r01, r10, r11), s);
        let f01 = hl_result(assemble4(r01, r02, r11, r12), s);
        let f10 = hl_result(assemble4(r10, r11, r20, r21), s);
        let f11 = hl_result(assemble4(r11, r12, r21, r22), s);
        lemma_hl_result_all_dead(assemble4(r00, r01, r10, r11), s);
        lemma_hl_result_all_dead(assemble4(r01, r02, r11, r12), s);
        lemma_hl_result_all_dead(assemble4(r10, r11, r20, r21), s);
        lemma_hl_result_all_dead(assemble4(r11, r12, r21, r22), s);
        lemma_hl_result_wf(assemble4(r00, r01, r10, r11), s);
        lemma_hl_result_wf(assemble4(r01, r02, r11, r12), s);
        lemma_hl_result_wf(assemble4(r10, r11, r20, r21), s);
        lemma_hl_result_wf(assemble4(r11, r12, r21, r22), s);
        lemma_all_dead_assemble4(f00, f01, f10, f11, s / 2);
    }
}

/// A window into an all-dead grid is all dead.
proof fn lemma_all_dead_window(g: Seq<Seq<bool>>, n: nat, r0: int, c0: int)
    requires
        grid_wf(g, n),
        all_dead(g),
        0 <= r0,
        0 <= c0,
        r0 + n / 2 <= n,
        c0 + n / 2 <= n,
    ensures
        all_dead(sub_grid(g, r0, c0, (n / 2) as int, (n / 2) as int)),
{
    let w = sub_grid(g, r0, c0, (n / 2) as int, (n / 2) as int);
    assert forall|i: int, j: int| 0 <= i < w.len() && 0 <= j < w[i].len() implies !(
    #[trigger] w[i][j]) by {
        assert(w[i][j] == g[r0 + i][c0 + j]);
    }
}

/// Four all-dead quadrants assemble to an all-dead grid.
proof fn lemma_all_dead_assemble4(
    tl: Seq<Seq<bool>>,
    tr: Seq<Seq<bool>>,
    bl: Seq<Seq<bool>>,
    br: Seq<Seq<bool>>,
    s: nat,
)
    requires
        grid_wf(tl, s),
        grid_wf(tr, s),
        grid_wf(bl, s),
        grid_wf(br, s),
        all_dead(tl),
        all_dead(tr),
        all_dead(bl),
        all_dead(br),
    ensures
        all_dead(assemble4(tl, tr, bl, br)),
{
    reveal(assemble4);
    let a4 = assemble4(tl, tr, bl, br);
    let si = s as int;
    assert forall|i: int, j: int| 0 <= i < a4.len() && 0 <= j < a4[i].len() implies !(
    #[trigger] a4[i][j]) by {
        if i < si {
            if j < si {
                assert(a4[i][j] == tl[i][j]);
            } else {
                assert(a4[i][j] == tr[i][j - si]);
            }
        } else {
            if j < si {
                assert(a4[i][j] == bl[i - si][j]);
            } else {
                assert(a4[i][j] == br[i - si][j - si]);
            }
        }
    }
}

} // verus!
