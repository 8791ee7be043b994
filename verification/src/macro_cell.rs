//! The MacroCell tree: a 2x2 leaf of cells at the base, and branches whose
//! four children are either all leaves or all branches of one side. Branch
//! children are canonical handles into a [`Cache`] arena, so a cell's
//! meaning — the boolean grid it denotes — is read off relative to the
//! arena's record sequence.

use vstd::prelude::*;

use crate::cache::{Cache, CachedMacroCellBranch};
pub use crate::state_buffer::{parse_plaintext, StateBuffer, StateBufferView};
use crate::grid::{
    assemble4, grid16, grid_wf, hl_result, lemma_assemble_sub_grids, lemma_grid16_window, one_if,
    sub_grid, valid_side,
};

verus! {

/// A 2x2 square of cells: the base of the recursion. Side length 2.
#[derive(Clone, Copy, PartialEq, Eq, Debug, Structural)]
pub struct MacroCellLeaf {
    pub top_left: bool,
    pub top_right: bool,
    pub bottom_left: bool,
    pub bottom_right: bool,
}

/// A square region of side a power of two: either a leaf, or a canonical
/// handle to an interned branch record of twice the children's side.
#[derive(Clone, Copy, PartialEq, Eq, Debug, Structural)]
pub enum MacroCell {
    Leaf(MacroCellLeaf),
    Branch(CachedMacroCellBranch),
}

/// A 2x2 arrangement of children, row 0 on top and column 0 on the left.
/// Valid records are homogeneous: all four children leaves, or all four
/// branches, and all of one side.
#[derive(Clone, Copy, PartialEq, Eq, Debug, Structural)]
pub struct MacroCellBranch {
    pub top_left: MacroCell,
    pub top_right: MacroCell,
    pub bottom_left: MacroCell,
    pub bottom_right: MacroCell,
}

/// The 2x2 grid a leaf denotes.
pub open spec fn leaf_grid(l: MacroCellLeaf) -> Seq<Seq<bool>> {
    seq![seq![l.top_left, l.top_right], seq![l.bottom_left, l.bottom_right]]
}


/// A well-founded rank for recursion over cells: branch handles are
/// ordered by arena index, and a record's children always rank below it.
pub open spec fn cell_rank(c: MacroCell) -> nat {
    match c {
        MacroCell::Leaf(_) => 0,
        MacroCell::Branch(h) => h.spec_id() + 1,
    }
}

/// The cell's handle, if any, points into the arena.
pub open spec fn cell_ok(recs: Seq<MacroCellBranch>, c: MacroCell) -> bool {
    match c {
        MacroCell::Leaf(_) => true,
        MacroCell::Branch(h) => h.spec_id() < recs.len(),
    }
}

/// Record `i` of the arena refers only to records before it.
pub open spec fn rec_guard(recs: Seq<MacroCellBranch>, i: int) -> bool {
    &&& 0 <= i < recs.len()
    &&& cell_rank(recs[i].top_left) <= i
    &&& cell_rank(recs[i].top_right) <= i
    &&& cell_rank(recs[i].bottom_left) <= i
    &&& cell_rank(recs[i].bottom_right) <= i
}

/// The side length of the square a cell denotes: 2 for a leaf, twice the
/// children's side for a branch (0 where the arena is malformed).
#[verifier::opaque]
pub open spec fn cell_size(recs: Seq<MacroCellBranch>, c: MacroCell) -> nat
    decreases cell_rank(c),
{
    match c {
        MacroCell::Leaf(_) => 2,
        MacroCell::Branch(h) => {
            if rec_guard(recs, h.spec_id() as int) {
                2 * cell_size(recs, recs[h.spec_id() as int].top_left)
            } else {
                0
            }
        },
    }
}

/// The boolean grid a cell denotes, relative to the arena: a leaf's four
/// cells, or the four children's grids assembled quadrant by quadrant.
#[verifier::opaque]
pub open spec fn cell_grid(recs: Seq<MacroCellBranch>, c: MacroCell) -> Seq<Seq<bool>>
    decreases cell_rank(c),
{
    match c {
        MacroCell::Leaf(l) => leaf_grid(l),
        MacroCell::Branch(h) => {
            if rec_guard(recs, h.spec_id() as int) {
                let r = recs[h.spec_id() as int];
                assemble4(
                    cell_grid(recs, r.top_left),
                    cell_grid(recs, r.top_right),
                    cell_grid(recs, r.bottom_left),
                    cell_grid(recs, r.bottom_right),
                )
            } else {
                Seq::empty()
            }
        },
    }
}

/// All four children are leaves, or all four are branches.
pub open spec fn homogeneous(r: MacroCellBranch) -> bool {
    ||| (r.top_left is Leaf && r.top_right is Leaf && r.bottom_left is Leaf
        && r.bottom_right is Leaf)
    ||| (r.top_left is Branch && r.top_right is Branch && r.bottom_left is Branch
        && r.bottom_right is Branch)
}

/// A record fit to intern: handles point into the arena, children are of
/// one kind and one side.
pub open spec fn rec_ok(recs: Seq<MacroCellBranch>, r: MacroCellBranch) -> bool {
    &&& cell_ok(recs, r.top_left)
    &&& cell_ok(recs, r.top_right)
    &&& cell_ok(recs, r.bottom_left)
    &&& cell_ok(recs, r.bottom_right)
    &&& homogeneous(r)
    &&& cell_size(recs, r.top_left) == cell_size(recs, r.top_right)
    &&& cell_size(recs, r.top_left) == cell_size(recs, r.bottom_left)
    &&& cell_size(recs, r.top_left) == cell_size(recs, r.bottom_right)
}

/// Arena entry `i` is a fit record referring only backwards.
pub open spec fn rec_entry_ok(recs: Seq<MacroCellBranch>, i: int) -> bool {
    &&& rec_guard(recs, i)
    &&& homogeneous(recs[i])
    &&& cell_size(recs, recs[i].top_left) == cell_size(recs, recs[i].top_right)
    &&& cell_size(recs, recs[i].top_left) == cell_size(recs, recs[i].bottom_left)
    &&& cell_size(recs, recs[i].top_left) == cell_size(recs, recs[i].bottom_right)
}

/// Every arena entry is fit.
pub open spec fn recs_ok(recs: Seq<MacroCellBranch>) -> bool {
    forall|i: int| 0 <= i < recs.len() ==> rec_entry_ok(recs, i)
}

/// No two arena entries are structurally equal.
pub open spec fn unique_records(recs: Seq<MacroCellBranch>) -> bool {
    forall|i: int, j: int|
        0 <= i < recs.len() && 0 <= j < recs.len() && i != j ==> recs[i] != recs[j]
}

/// `recs2` extends `recs1`: the old entries are still there, unchanged.
pub open spec fn recs_extends(recs1: Seq<MacroCellBranch>, recs2: Seq<MacroCellBranch>) -> bool {
    &&& recs1.len() <= recs2.len()
    &&& forall|i: int| 0 <= i < recs1.len() ==> recs2[i] == #[trigger] recs1[i]
}

/// The grid a whole record denotes: its children's grids, assembled.
pub open spec fn rec_grid(recs: Seq<MacroCellBranch>, r: MacroCellBranch) -> Seq<Seq<bool>> {
    assemble4(
        cell_grid(recs, r.top_left),
        cell_grid(recs, r.top_right),
        cell_grid(recs, r.bottom_left),
        cell_grid(recs, r.bottom_right),
    )
}

/// The side of the square a whole record denotes.
pub open spec fn rec_size(recs: Seq<MacroCellBranch>, r: MacroCellBranch) -> nat {
    2 * cell_size(recs, r.top_left)
}


/// Reading one leaf cell through `cell_grid`.
pub proof fn lemma_cell_grid_leaf(recs: Seq<MacroCellBranch>, l: MacroCellLeaf)
    ensures
        cell_grid(recs, MacroCell::Leaf(l)) == leaf_grid(l),
        cell_size(recs, MacroCell::Leaf(l)) == 2,
{
    reveal(cell_grid);
    reveal(cell_size);
}

/// Reading one branch cell through `cell_grid`: the four children of the
/// record its handle names, assembled.
pub proof fn lemma_cell_grid_branch(recs: Seq<MacroCellBranch>, h: CachedMacroCellBranch)
    requires
        rec_guard(recs, h.spec_id() as int),
    ensures
        cell_grid(recs, MacroCell::Branch(h)) == rec_grid(recs, recs[h.spec_id() as int]),
        cell_size(recs, MacroCell::Branch(h)) == rec_size(recs, recs[h.spec_id() as int]),
{
    reveal(cell_grid);
    reveal(cell_size);
}

/// Extending the arena changes no existing cell's size or grid: a cell
/// only ever reads entries below its own rank.
pub proof fn lemma_extends_preserves_cell(
    recs1: Seq<MacroCellBranch>,
    recs2: Seq<MacroCellBranch>,
    c: MacroCell,
)
    requires
        recs_extends(recs1, recs2),
        cell_ok(recs1, c),
    ensures
        cell_size(recs2, c) == cell_size(recs1, c),
        cell_grid(recs2, c) == cell_grid(recs1, c),
    decreases cell_rank(c),
{
    reveal(cell_size);
    reveal(cell_grid);
    match c {
        MacroCell::Leaf(_) => {},
        MacroCell::Branch(h) => {
            let i = h.spec_id() as int;
            assert(recs2[i] == recs1[i]);
            if rec_guard(recs1, i) {
                let r = recs1[i];
                lemma_extends_preserves_cell(recs1, recs2, r.top_left);
                lemma_extends_preserves_cell(recs1, recs2, r.top_right);
                lemma_extends_preserves_cell(recs1, recs2, r.bottom_left);
                lemma_extends_preserves_cell(recs1, recs2, r.bottom_right);
            } else {
                assert(!rec_guard(recs2, i));
            }
        },
    }
}

/// The same, for a whole record.
pub proof fn lemma_extends_preserves_rec(
    recs1: Seq<MacroCellBranch>,
    recs2: Seq<MacroCellBranch>,
    r: MacroCellBranch,
)
    requires
        recs_extends(recs1, recs2),
        rec_ok(recs1, r),
    ensures
        rec_ok(recs2, r),
        rec_size(recs2, r) == rec_size(recs1, r),
        rec_grid(recs2, r) == rec_grid(recs1, r),
{
    lemma_extends_preserves_cell(recs1, recs2, r.top_left);
    lemma_extends_preserves_cell(recs1, recs2, r.top_right);
    lemma_extends_preserves_cell(recs1, recs2, r.bottom_left);
    lemma_extends_preserves_cell(recs1, recs2, r.bottom_right);
}

/// In a fit arena, every cell with an in-range handle denotes a
/// well-formed square grid whose side is a power of two; leaves are
/// exactly the cells of side 2.
pub proof fn lemma_valid_cell(recs: Seq<MacroCellBranch>, c: MacroCell)
    requires
        recs_ok(recs),
        cell_ok(recs, c),
    ensures
        cell_size(recs, c) >= 2,
        valid_side(cell_size(recs, c)),
        c is Leaf <==> cell_size(recs, c) == 2,
        grid_wf(cell_grid(recs, c), cell_size(recs, c)),
    decreases cell_rank(c),
{
    reveal(assemble4);
    reveal(cell_size);
    reveal(cell_grid);
    match c {
        MacroCell::Leaf(l) => {
            assert(leaf_grid(l).len() == 2);
            assert(leaf_grid(l)[0].len() == 2);
            assert(leaf_grid(l)[1].len() == 2);
        },
        MacroCell::Branch(h) => {
            let i = h.spec_id() as int;
            assert(rec_entry_ok(recs, i));
            let r = recs[i];
            lemma_valid_cell(recs, r.top_left);
            lemma_valid_cell(recs, r.top_right);
            lemma_valid_cell(recs, r.bottom_left);
            lemma_valid_cell(recs, r.bottom_right);
        },
    }
}

/// Extending twice is extending.
pub proof fn lemma_extends_trans(
    recs1: Seq<MacroCellBranch>,
    recs2: Seq<MacroCellBranch>,
    recs3: Seq<MacroCellBranch>,
)
    requires
        recs_extends(recs1, recs2),
        recs_extends(recs2, recs3),
    ensures
        recs_extends(recs1, recs3),
{
}

/// An arena entry, read back as a record, is fit to use again.
pub proof fn lemma_entry_rec_ok(recs: Seq<MacroCellBranch>, i: int)
    requires
        recs_ok(recs),
        0 <= i < recs.len(),
    ensures
        rec_ok(recs, recs[i]),
{
    assert(rec_entry_ok(recs, i));
}

/// In a fit arena, a fit record denotes a well-formed square grid of
/// power-of-two side at least 4.
pub proof fn lemma_valid_rec(recs: Seq<MacroCellBranch>, r: MacroCellBranch)
    requires
        recs_ok(recs),
        rec_ok(recs, r),
    ensures
        rec_size(recs, r) >= 4,
        valid_side(rec_size(recs, r)),
        grid_wf(rec_grid(recs, r), rec_size(recs, r)),
        rec_size(recs, r) / 2 == cell_size(recs, r.top_left),
{
    reveal(assemble4);
    lemma_valid_cell(recs, r.top_left);
    lemma_valid_cell(recs, r.top_right);
    lemma_valid_cell(recs, r.bottom_left);
    lemma_valid_cell(recs, r.bottom_right);
}

/// Canonical identity: in a fit arena with no duplicate records, two
/// valid cells that denote the same grid are the same cell. Equality of
/// handles coincides with structural equality of what they stand for.
pub proof fn lemma_canonical_cells(recs: Seq<MacroCellBranch>, c1: MacroCell, c2: MacroCell)
    requires
        recs_ok(recs),
        unique_records(recs),
        cell_ok(recs, c1),
        cell_ok(recs, c2),
        cell_grid(recs, c1) == cell_grid(recs, c2),
    ensures
        c1 == c2,
    decreases cell_rank(c1),
{
    reveal(cell_size);
    reveal(cell_grid);
    lemma_valid_cell(recs, c1);
    lemma_valid_cell(recs, c2);
    let s = cell_size(recs, c1);
    assert(cell_size(recs, c2) == s) by {
        assert(cell_grid(recs, c1).len() == s);
        assert(cell_grid(recs, c2).len() == cell_size(recs, c2));
    }
    match c1 {
        MacroCell::Leaf(l1) => {
            match c2 {
                MacroCell::Leaf(l2) => {
                    assert(l1.top_left == leaf_grid(l1)[0][0] && leaf_grid(l2)[0][0]
                        == l2.top_left);
                    assert(l1.top_right == leaf_grid(l1)[0][1] && leaf_grid(l2)[0][1]
                        == l2.top_right);
                    assert(l1.bottom_left == leaf_grid(l1)[1][0] && leaf_grid(l2)[1][0]
                        == l2.bottom_left);
                    assert(l1.bottom_right == leaf_grid(l1)[1][1] && leaf_grid(l2)[1][1]
                        == l2.bottom_right);
                    assert(l1 == l2);
                    assert(c1 == MacroCell::Leaf(l1));
                    assert(c2 == MacroCell::Leaf(l2));
                    assert(c1 == c2);
                },
                MacroCell::Branch(_) => {
                    assert(false);
                },
            }
        },
        MacroCell::Branch(h1) => {
            match c2 {
                MacroCell::Leaf(_) => {
                    assert(false);
                },
                MacroCell::Branch(h2) => {
                    let i1 = h1.spec_id() as int;
                    let i2 = h2.spec_id() as int;
                    assert(rec_entry_ok(recs, i1));
                    assert(rec_entry_ok(recs, i2));
                    let r1 = recs[i1];
                    let r2 = recs[i2];
                    let half = cell_size(recs, r1.top_left);
                    lemma_valid_cell(recs, r1.top_left);
                    lemma_valid_cell(recs, r1.top_right);
                    lemma_valid_cell(recs, r1.bottom_left);
                    lemma_valid_cell(recs, r1.bottom_right);
                    lemma_valid_cell(recs, r2.top_left);
                    lemma_valid_cell(recs, r2.top_right);
                    lemma_valid_cell(recs, r2.bottom_left);
                    lemma_valid_cell(recs, r2.bottom_right);
                    assert(cell_size(recs, r2.top_left) == half);
                    crate::grid::lemma_assemble4_quadrants(
                        cell_grid(recs, r1.top_left),
                        cell_grid(recs, r1.top_right),
                        cell_grid(recs, r1.bottom_left),
                        cell_grid(recs, r1.bottom_right),
                        half,
                    );
                    crate::grid::lemma_assemble4_quadrants(
                        cell_grid(recs, r2.top_left),
                        cell_grid(recs, r2.top_right),
                        cell_grid(recs, r2.bottom_left),
                        cell_grid(recs, r2.bottom_right),
                        half,
                    );
                    lemma_canonical_cells(recs, r1.top_left, r2.top_left);
                    lemma_canonical_cells(recs, r1.top_right, r2.top_right);
                    lemma_canonical_cells(recs, r1.bottom_left, r2.bottom_left);
                    lemma_canonical_cells(recs, r1.bottom_right, r2.bottom_right);
                    assert(r1 == r2);
                    assert(i1 == i2);
                    CachedMacroCellBranch::lemma_id_determines_handle(h1, h2);
                },
            }
        },
    }
}

/// One application of the Life rule B3/S23 to cell `(i, j)` of `g`,
/// handed that cell and its eight neighbors.
fn life_rule(
    center: bool,
    n1: bool,
    n2: bool,
    n3: bool,
    n4: bool,
    n5: bool,
    n6: bool,
    n7: bool,
    n8: bool,
    Ghost(g): Ghost<Seq<Seq<bool>>>,
    Ghost(i): Ghost<int>,
    Ghost(j): Ghost<int>,
) -> (alive_next: bool)
    requires
        crate::grid::cell_alive(g, i, j) == center,
        crate::grid::cell_alive(g, i - 1, j - 1) == n1,
        crate::grid::cell_alive(g, i - 1, j) == n2,
        crate::grid::cell_alive(g, i - 1, j + 1) == n3,
        crate::grid::cell_alive(g, i, j - 1) == n4,
        crate::grid::cell_alive(g, i, j + 1) == n5,
        crate::grid::cell_alive(g, i + 1, j - 1) == n6,
        crate::grid::cell_alive(g, i + 1, j) == n7,
        crate::grid::cell_alive(g, i + 1, j + 1) == n8,
    ensures
        alive_next == crate::grid::next_cell(g, i, j),
{
    proof {
        reveal(crate::grid::next_cell);
        reveal(crate::grid::live_neighbors);
    }
    let mut count: u8 = 0;
    if n1 {
        count = count + 1;
    }
    if n2 {
        count = count + 1;
    }
    if n3 {
        count = count + 1;
    }
    if n4 {
        count = count + 1;
    }
    if n5 {
        count = count + 1;
    }
    if n6 {
        count = count + 1;
    }
    if n7 {
        count = count + 1;
    }
    if n8 {
        count = count + 1;
    }
    proof {
        assert(crate::grid::live_neighbors(g, i, j) == one_if(n1) + one_if(n2) + one_if(n3)
            + one_if(n4) + one_if(n5) + one_if(n6) + one_if(n7) + one_if(n8));
    }
    if center {
        count == 2 || count == 3
    } else {
        count == 3
    }
}

/// The handle of a branch cell.
pub open spec fn branch_handle(c: MacroCell) -> CachedMacroCellBranch {
    c->Branch_0
}

/// The record a branch cell's handle names.
pub open spec fn child_rec(recs: Seq<MacroCellBranch>, c: MacroCell) -> MacroCellBranch {
    recs[branch_handle(c).spec_id() as int]
}

/// The half-side record straddling the top seam of `r`: the inner halves
/// of the two top children.
pub open spec fn mid_top(recs: Seq<MacroCellBranch>, r: MacroCellBranch) -> MacroCellBranch {
    MacroCellBranch {
        top_left: child_rec(recs, r.top_left).top_right,
        top_right: child_rec(recs, r.top_right).top_left,
        bottom_left: child_rec(recs, r.top_left).bottom_right,
        bottom_right: child_rec(recs, r.top_right).bottom_left,
    }
}

/// The half-side record straddling the left seam of `r`.
pub open spec fn mid_left(recs: Seq<MacroCellBranch>, r: MacroCellBranch) -> MacroCellBranch {
    MacroCellBranch {
        top_left: child_rec(recs, r.top_left).bottom_left,
        top_right: child_rec(recs, r.top_left).bottom_right,
        bottom_left: child_rec(recs, r.bottom_left).top_left,
        bottom_right: child_rec(recs, r.bottom_left).top_right,
    }
}

/// The half-side record at the very center of `r`: one grandchild from
/// each child.
pub open spec fn mid_center(recs: Seq<MacroCellBranch>, r: MacroCellBranch) -> MacroCellBranch {
    MacroCellBranch {
        top_left: child_rec(recs, r.top_left).bottom_right,
        top_right: child_rec(recs, r.top_right).bottom_left,
        bottom_left: child_rec(recs, r.bottom_left).top_right,
        bottom_right: child_rec(recs, r.bottom_right).top_left,
    }
}

/// The half-side record straddling the right seam of `r`.
pub open spec fn mid_right(recs: Seq<MacroCellBranch>, r: MacroCellBranch) -> MacroCellBranch {
    MacroCellBranch {
        top_left: child_rec(recs, r.top_right).bottom_left,
        top_right: child_rec(recs, r.top_right).bottom_right,
        bottom_left: child_rec(recs, r.bottom_right).top_left,
        bottom_right: child_rec(recs, r.bottom_right).top_right,
    }
}

/// The half-side record straddling the bottom seam of `r`.
pub open spec fn mid_bottom(recs: Seq<MacroCellBranch>, r: MacroCellBranch) -> MacroCellBranch {
    MacroCellBranch {
        top_left: child_rec(recs, r.bottom_left).top_right,
        top_right: child_rec(recs, r.bottom_right).top_left,
        bottom_left: child_rec(recs, r.bottom_left).bottom_right,
        bottom_right: child_rec(recs, r.bottom_right).bottom_left,
    }
}

/// The half-side window of `r`'s grid anchored at quarter-side offsets
/// `(i, j)`, for `i`, `j` in `0..=2`.
pub open spec fn branch_window(
    recs: Seq<MacroCellBranch>,
    r: MacroCellBranch,
    i: int,
    j: int,
) -> Seq<Seq<bool>> {
    let q = (rec_size(recs, r) / 4) as int;
    let s = (rec_size(recs, r) / 2) as int;
    sub_grid(rec_grid(recs, r), i * q, j * q, s, s)
}

/// The evolved center of the window at `(i, j)`.
pub open spec fn window_result(
    recs: Seq<MacroCellBranch>,
    r: MacroCellBranch,
    i: int,
    j: int,
) -> Seq<Seq<bool>> {
    hl_result(branch_window(recs, r, i, j), rec_size(recs, r) / 2)
}

/// The overlap decomposition behind the recursive case: the nine
/// half-side windows of an all-branch record's grid are exactly the nine
/// 2x2 arrangements of its grandchildren — the four children themselves
/// at the corners, and the five seam and center records between them —
/// and the recurrence on the whole grid is the assembly of the recurrence
/// applied to the four overlapping 2x2 windows of their nine results.
#[verifier::rlimit(100)]
#[verifier::spinoff_prover]
pub proof fn lemma_branch_windows(recs: Seq<MacroCellBranch>, r: MacroCellBranch)
    requires
        recs_ok(recs),
        rec_ok(recs, r),
        r.top_left is Branch,
    ensures
        rec_size(recs, r) > 4,
        rec_size(recs, r) % 4 == 0,
        rec_ok(recs, child_rec(recs, r.top_left)),
        rec_ok(recs, child_rec(recs, r.top_right)),
        rec_ok(recs, child_rec(recs, r.bottom_left)),
        rec_ok(recs, child_rec(recs, r.bottom_right)),
        rec_ok(recs, mid_top(recs, r)),
        rec_ok(recs, mid_left(recs, r)),
        rec_ok(recs, mid_center(recs, r)),
        rec_ok(recs, mid_right(recs, r)),
        rec_ok(recs, mid_bottom(recs, r)),
        rec_size(recs, child_rec(recs, r.top_left)) == rec_size(recs, r) / 2,
        rec_size(recs, child_rec(recs, r.top_right)) == rec_size(recs, r) / 2,
        rec_size(recs, child_rec(recs, r.bottom_left)) == rec_size(recs, r) / 2,
        rec_size(recs, child_rec(recs, r.bottom_right)) == rec_size(recs, r) / 2,
        rec_size(recs, mid_top(recs, r)) == rec_size(recs, r) / 2,
        rec_size(recs, mid_left(recs, r)) == rec_size(recs, r) / 2,
        rec_size(recs, mid_center(recs, r)) == rec_size(recs, r) / 2,
        rec_size(recs, mid_right(recs, r)) == rec_size(recs, r) / 2,
        rec_size(recs, mid_bottom(recs, r)) == rec_size(recs, r) / 2,
        rec_grid(recs, child_rec(recs, r.top_left)) == branch_window(recs, r, 0, 0),
        rec_grid(recs, child_rec(recs, r.top_right)) == branch_window(recs, r, 0, 2),
        rec_grid(recs, child_rec(recs, r.bottom_left)) == branch_window(recs, r, 2, 0),
        rec_grid(recs, child_rec(recs, r.bottom_right)) == branch_window(recs, r, 2, 2),
        rec_grid(recs, mid_top(recs, r)) == branch_window(recs, r, 0, 1),
        rec_grid(recs, mid_left(recs, r)) == branch_window(recs, r, 1, 0),
        rec_grid(recs, mid_center(recs, r)) == branch_window(recs, r, 1, 1),
        rec_grid(recs, mid_right(recs, r)) == branch_window(recs, r, 1, 2),
        rec_grid(recs, mid_bottom(recs, r)) == branch_window(recs, r, 2, 1),
        hl_result(rec_grid(recs, r), rec_size(recs, r)) == assemble4(
            hl_result(
                assemble4(
                    window_result(recs, r, 0, 0),
                    window_result(recs, r, 0, 1),
                    window_result(recs, r, 1, 0),
                    window_result(recs, r, 1, 1),
                ),
                rec_size(recs, r) / 2,
            ),
            hl_result(
                assemble4(
                    window_result(recs, r, 0, 1),
                    window_result(recs, r, 0, 2),
                    window_result(recs, r, 1, 1),
                    window_result(recs, r, 1, 2),
                ),
                rec_size(recs, r) / 2,
            ),
            hl_result(
                assemble4(
                    window_result(recs, r, 1, 0),
                    window_result(recs, r, 1, 1),
                    window_result(recs, r, 2, 0),
                    window_result(recs, r, 2, 1),
                ),
                rec_size(recs, r) / 2,
            ),
            hl_result(
                assemble4(
                    window_result(recs, r, 1, 1),
                    window_result(recs, r, 1, 2),
                    window_result(recs, r, 2, 1),
                    window_result(recs, r, 2, 2),
                ),
                rec_size(recs, r) / 2,
            ),
        ),
{
    reveal(hl_result);
    reveal(cell_size);
    reveal(cell_grid);
    let n = rec_size(recs, r);
    let g = rec_grid(recs, r);
    lemma_valid_cell(recs, r.top_left);
    lemma_valid_cell(recs, r.top_right);
    lemma_valid_cell(recs, r.bottom_left);
    lemma_valid_cell(recs, r.bottom_right);
    let b00 = branch_handle(r.top_left);
    let b01 = branch_handle(r.top_right);
    let b10 = branch_handle(r.bottom_left);
    let b11 = branch_handle(r.bottom_right);
    assert(rec_entry_ok(recs, b00.spec_id() as int));
    assert(rec_entry_ok(recs, b01.spec_id() as int));
    assert(rec_entry_ok(recs, b10.spec_id() as int));
    assert(rec_entry_ok(recs, b11.spec_id() as int));
    let rec00 = child_rec(recs, r.top_left);
    let rec01 = child_rec(recs, r.top_right);
    let rec10 = child_rec(recs, r.bottom_left);
    let rec11 = child_rec(recs, r.bottom_right);
    lemma_valid_cell(recs, rec00.top_left);
    lemma_valid_cell(recs, rec00.top_right);
    lemma_valid_cell(recs, rec00.bottom_left);
    lemma_valid_cell(recs, rec00.bottom_right);
    lemma_valid_cell(recs, rec01.top_left);
    lemma_valid_cell(recs, rec01.top_right);
    lemma_valid_cell(recs, rec01.bottom_left);
    lemma_valid_cell(recs, rec01.bottom_right);
    lemma_valid_cell(recs, rec10.top_left);
    lemma_valid_cell(recs, rec10.top_right);
    lemma_valid_cell(recs, rec10.bottom_left);
    lemma_valid_cell(recs, rec10.bottom_right);
    lemma_valid_cell(recs, rec11.top_left);
    lemma_valid_cell(recs, rec11.top_right);
    lemma_valid_cell(recs, rec11.bottom_left);
    lemma_valid_cell(recs, rec11.bottom_right);
    let s = cell_size(recs, r.top_left);
    let q = cell_size(recs, rec00.top_left);
    assert(s == 2 * q);
    assert(n == 4 * q);
    assert(n / 2 == s && n / 4 == q && n > 4 && n % 4 == 0);
    let gg = seq![
        seq![
            cell_grid(recs, rec00.top_left),
            cell_grid(recs, rec00.top_right),
            cell_grid(recs, rec01.top_left),
            cell_grid(recs, rec01.top_right),
        ],
        seq![
            cell_grid(recs, rec00.bottom_left),
            cell_grid(recs, rec00.bottom_right),
            cell_grid(recs, rec01.bottom_left),
            cell_grid(recs, rec01.bottom_right),
        ],
        seq![
            cell_grid(recs, rec10.top_left),
            cell_grid(recs, rec10.top_right),
            cell_grid(recs, rec11.top_left),
            cell_grid(recs, rec11.top_right),
        ],
        seq![
            cell_grid(recs, rec10.bottom_left),
            cell_grid(recs, rec10.bottom_right),
            cell_grid(recs, rec11.bottom_left),
            cell_grid(recs, rec11.bottom_right),
        ],
    ];
    assert(cell_grid(recs, r.top_left) == assemble4(gg[0][0], gg[0][1], gg[1][0], gg[1][1]));
    assert(cell_grid(recs, r.top_right) == assemble4(gg[0][2], gg[0][3], gg[1][2], gg[1][3]));
    assert(cell_grid(recs, r.bottom_left) == assemble4(gg[2][0], gg[2][1], gg[3][0], gg[3][1]));
    assert(cell_grid(recs, r.bottom_right) == assemble4(gg[2][2], gg[2][3], gg[3][2], gg[3][3]));
    assert(g == grid16(gg, q));
    assert forall|a: int, b: int| 0 <= a < 4 && 0 <= b < 4 implies grid_wf(
        #[trigger] gg[a][b],
        q,
    ) by {
        assert(gg[0].len() == 4 && gg[1].len() == 4 && gg[2].len() == 4 && gg[3].len() == 4);
    }
    lemma_grid16_window(gg, q, 0, 0);
    lemma_grid16_window(gg, q, 0, 1);
    lemma_grid16_window(gg, q, 0, 2);
    lemma_grid16_window(gg, q, 1, 0);
    lemma_grid16_window(gg, q, 1, 1);
    lemma_grid16_window(gg, q, 1, 2);
    lemma_grid16_window(gg, q, 2, 0);
    lemma_grid16_window(gg, q, 2, 1);
    lemma_grid16_window(gg, q, 2, 2);
}

/// The cells of the 4x4 square that four leaves tile.
#[verifier::rlimit(100)]
#[verifier::spinoff_prover]
proof fn lemma_leaf_tile_cells(
    l00: MacroCellLeaf,
    l01: MacroCellLeaf,
    l10: MacroCellLeaf,
    l11: MacroCellLeaf,
)
    ensures
        ({
            let g = assemble4(leaf_grid(l00), leaf_grid(l01), leaf_grid(l10), leaf_grid(l11));
            &&& grid_wf(g, 4)
            &&& g[0][0] == l00.top_left
            &&& g[0][1] == l00.top_right
            &&& g[0][2] == l01.top_left
            &&& g[0][3] == l01.top_right
            &&& g[1][0] == l00.bottom_left
            &&& g[1][1] == l00.bottom_right
            &&& g[1][2] == l01.bottom_left
            &&& g[1][3] == l01.bottom_right
            &&& g[2][0] == l10.top_left
            &&& g[2][1] == l10.top_right
            &&& g[2][2] == l11.top_left
            &&& g[2][3] == l11.top_right
            &&& g[3][0] == l10.bottom_left
            &&& g[3][1] == l10.bottom_right
            &&& g[3][2] == l11.bottom_left
            &&& g[3][3] == l11.bottom_right
        }),
{
    reveal(assemble4);
}

/// Cell by cell, the base of the recurrence on the tiled square is one
/// application of the Life rule to the center.
#[verifier::rlimit(100)]
#[verifier::spinoff_prover]
proof fn lemma_leaf_step_cell(
    l00: MacroCellLeaf,
    l01: MacroCellLeaf,
    l10: MacroCellLeaf,
    l11: MacroCellLeaf,
    i: int,
    j: int,
)
    requires
        0 <= i < 2,
        0 <= j < 2,
    ensures
        ({
            let g = assemble4(leaf_grid(l00), leaf_grid(l01), leaf_grid(l10), leaf_grid(l11));
            let hl = hl_result(g, 4);
            &&& hl.len() == 2
            &&& hl[i].len() == 2
            &&& hl[i][j] == crate::grid::next_cell(g, 1 + i, 1 + j)
        }),
{
    reveal(hl_result);
    lemma_leaf_tile_cells(l00, l01, l10, l11);
    let g = assemble4(leaf_grid(l00), leaf_grid(l01), leaf_grid(l10), leaf_grid(l11));
    let hl = hl_result(g, 4);
    assert(hl == sub_grid(crate::grid::life_step(g), 1, 1, 2, 2));
    assert(hl[i][j] == crate::grid::life_step(g)[1 + i][1 + j]);
}

/// The base of the evaluator: four leaves tile a 4x4 square; one
/// generation of the Life rule on it yields the centered 2x2 square.
#[verifier::rlimit(100)]
#[verifier::spinoff_prover]
fn leaf_result(
    l00: MacroCellLeaf,
    l01: MacroCellLeaf,
    l10: MacroCellLeaf,
    l11: MacroCellLeaf,
) -> (r: MacroCellLeaf)
    ensures
        leaf_grid(r) == hl_result(
            assemble4(leaf_grid(l00), leaf_grid(l01), leaf_grid(l10), leaf_grid(l11)),
            4,
        ),
{
    let ghost g = assemble4(leaf_grid(l00), leaf_grid(l01), leaf_grid(l10), leaf_grid(l11));
    proof {
        lemma_leaf_tile_cells(l00, l01, l10, l11);
    }
    let rtl = life_rule(
        l00.bottom_right,
        l00.top_left,
        l00.top_right,
        l01.top_left,
        l00.bottom_left,
        l01.bottom_left,
        l10.top_left,
        l10.top_right,
        l11.top_left,
        Ghost(g),
        Ghost(1),
        Ghost(1),
    );
    let rtr = life_rule(
        l01.bottom_left,
        l00.top_right,
        l01.top_left,
        l01.top_right,
        l00.bottom_right,
        l01.bottom_right,
        l10.top_right,
        l11.top_left,
        l11.top_right,
        Ghost(g),
        Ghost(1),
        Ghost(2),
    );
    let rbl = life_rule(
        l10.top_right,
        l00.bottom_left,
        l00.bottom_right,
        l01.bottom_left,
        l10.top_left,
        l11.top_left,
        l10.bottom_left,
        l10.bottom_right,
        l11.bottom_left,
        Ghost(g),
        Ghost(2),
        Ghost(1),
    );
    let rbr = life_rule(
        l11.top_left,
        l00.bottom_right,
        l01.bottom_left,
        l01.bottom_right,
        l10.top_right,
        l11.top_right,
        l10.bottom_right,
        l11.bottom_left,
        l11.bottom_right,
        Ghost(g),
        Ghost(2),
        Ghost(2),
    );
    let leaf = MacroCellLeaf { top_left: rtl, top_right: rtr, bottom_left: rbl, bottom_right: rbr };
    proof {
        lemma_leaf_step_cell(l00, l01, l10, l11, 0, 0);
        lemma_leaf_step_cell(l00, l01, l10, l11, 0, 1);
        lemma_leaf_step_cell(l00, l01, l10, l11, 1, 0);
        lemma_leaf_step_cell(l00, l01, l10, l11, 1, 1);
        let hl = hl_result(g, 4);
        assert(leaf_grid(leaf)[0] =~= hl[0]);
        assert(leaf_grid(leaf)[1] =~= hl[1]);
        assert(leaf_grid(leaf) =~= hl);
    }
    leaf
}

/// Intern one 2x2 arrangement of four equal-sided cells and return its
/// memoized result: the evolved center of the square the four tile.
#[verifier::rlimit(100)]
#[verifier::spinoff_prover]
fn overlap_result(
    a: MacroCell,
    b: MacroCell,
    c: MacroCell,
    d: MacroCell,
    cache: &mut Cache,
) -> (r: MacroCell)
    requires
        old(cache).wf(),
        cell_ok(old(cache).recs(), a),
        cell_ok(old(cache).recs(), b),
        cell_ok(old(cache).recs(), c),
        cell_ok(old(cache).recs(), d),
        cell_size(old(cache).recs(), b) == cell_size(old(cache).recs(), a),
        cell_size(old(cache).recs(), c) == cell_size(old(cache).recs(), a),
        cell_size(old(cache).recs(), d) == cell_size(old(cache).recs(), a),
    ensures
        final(cache).wf(),
        recs_extends(old(cache).recs(), final(cache).recs()),
        cell_ok(final(cache).recs(), r),
        cell_grid(final(cache).recs(), r) == hl_result(
            assemble4(
                cell_grid(old(cache).recs(), a),
                cell_grid(old(cache).recs(), b),
                cell_grid(old(cache).recs(), c),
                cell_grid(old(cache).recs(), d),
            ),
            2 * cell_size(old(cache).recs(), a),
        ),
        cell_size(final(cache).recs(), r) == cell_size(old(cache).recs(), a),
        forall|k: int|
            old(cache).recs().len() <= k < final(cache).recs().len() ==> rec_size(
                final(cache).recs(),
                #[trigger] final(cache).recs()[k],
            ) <= 2 * cell_size(old(cache).recs(), a),
        forall|e: MacroCell|
            cell_ok(old(cache).recs(), e) ==> #[trigger] cell_grid(final(cache).recs(), e)
                == cell_grid(old(cache).recs(), e),
        forall|e: MacroCell|
            cell_ok(old(cache).recs(), e) ==> #[trigger] cell_size(final(cache).recs(), e)
                == cell_size(old(cache).recs(), e),
    decreases 2 * cell_size(old(cache).recs(), a), 3int,
{
    proof {
        lemma_overlap_rec_ok(old(cache).recs(), a, b, c, d, cell_size(old(cache).recs(), a));
    }
    let rec = MacroCellBranch { top_left: a, top_right: b, bottom_left: c, bottom_right: d };
    CachedMacroCellBranch::new_result(rec, cache).1
}

/// Intern the four overlapping 2x2 arrangements of nine equal-sided
/// result cells, take their results, and intern their composition: the
/// returned branch cell assembles the evolved centers of the four
/// overlapping windows.
#[verifier::rlimit(100)]
#[verifier::spinoff_prover]
fn assemble_results(
    t00: MacroCell,
    t01: MacroCell,
    t02: MacroCell,
    t10: MacroCell,
    t11: MacroCell,
    t12: MacroCell,
    t20: MacroCell,
    t21: MacroCell,
    t22: MacroCell,
    cache: &mut Cache,
) -> (r: MacroCell)
    requires
        old(cache).wf(),
        cell_ok(old(cache).recs(), t00),
        cell_ok(old(cache).recs(), t01),
        cell_ok(old(cache).recs(), t02),
        cell_ok(old(cache).recs(), t10),
        cell_ok(old(cache).recs(), t11),
        cell_ok(old(cache).recs(), t12),
        cell_ok(old(cache).recs(), t20),
        cell_ok(old(cache).recs(), t21),
        cell_ok(old(cache).recs(), t22),
        cell_size(old(cache).recs(), t01) == cell_size(old(cache).recs(), t00),
        cell_size(old(cache).recs(), t02) == cell_size(old(cache).recs(), t00),
        cell_size(old(cache).recs(), t10) == cell_size(old(cache).recs(), t00),
        cell_size(old(cache).recs(), t11) == cell_size(old(cache).recs(), t00),
        cell_size(old(cache).recs(), t12) == cell_size(old(cache).recs(), t00),
        cell_size(old(cache).recs(), t20) == cell_size(old(cache).recs(), t00),
        cell_size(old(cache).recs(), t21) == cell_size(old(cache).recs(), t00),
        cell_size(old(cache).recs(), t22) == cell_size(old(cache).recs(), t00),
    ensures
        final(cache).wf(),
        recs_extends(old(cache).recs(), final(cache).recs()),
        cell_ok(final(cache).recs(), r),
        cell_grid(final(cache).recs(), r) == assemble4(
            hl_result(
                assemble4(
                    cell_grid(old(cache).recs(), t00),
                    cell_grid(old(cache).recs(), t01),
                    cell_grid(old(cache).recs(), t10),
                    cell_grid(old(cache).recs(), t11),
                ),
                2 * cell_size(old(cache).recs(), t00),
            ),
            hl_result(
                assemble4(
                    cell_grid(old(cache).recs(), t01),
                    cell_grid(old(cache).recs(), t02),
                    cell_grid(old(cache).recs(), t11),
                    cell_grid(old(cache).recs(), t12),
                ),
                2 * cell_size(old(cache).recs(), t00),
            ),
            hl_result(
                assemble4(
                    cell_grid(old(cache).recs(), t10),
                    cell_grid(old(cache).recs(), t11),
                    cell_grid(old(cache).recs(), t20),
                    cell_grid(old(cache).recs(), t21),
                ),
                2 * cell_size(old(cache).recs(), t00),
            ),
            hl_result(
                assemble4(
                    cell_grid(old(cache).recs(), t11),
                    cell_grid(old(cache).recs(), t12),
                    cell_grid(old(cache).recs(), t21),
                    cell_grid(old(cache).recs(), t22),
                ),
                2 * cell_size(old(cache).recs(), t00),
            ),
        ),
        cell_size(final(cache).recs(), r) == 2 * cell_size(old(cache).recs(), t00),
        forall|k: int|
            old(cache).recs().len() <= k < final(cache).recs().len() ==> rec_size(
                final(cache).recs(),
                #[trigger] final(cache).recs()[k],
            ) <= 2 * cell_size(old(cache).recs(), t00),
    decreases 2 * cell_size(old(cache).recs(), t00), 4int,
{
    let ghost recs_e = old(cache).recs();
    let ghost h = cell_size(recs_e, t00);
    let ghost s = 2 * h;
    let f00 = overlap_result(t00, t01, t10, t11, cache);
    let ghost recs_f = cache.recs();
    proof {
        lemma_step_bound(recs_e, recs_e, recs_f, s);
    }
    let f01 = overlap_result(t01, t02, t11, t12, cache);
    let ghost recs_g = cache.recs();
    proof {
        lemma_step_bound(recs_e, recs_f, recs_g, s);
    }
    let f10 = overlap_result(t10, t11, t20, t21, cache);
    let ghost recs_h = cache.recs();
    proof {
        lemma_step_bound(recs_e, recs_g, recs_h, s);
    }
    let f11 = overlap_result(t11, t12, t21, t22, cache);
    let ghost recs_i = cache.recs();
    proof {
        lemma_step_bound(recs_e, recs_h, recs_i, s);
        lemma_overlap_rec_ok(recs_i, f00, f01, f10, f11, h);
    }
    let frec = MacroCellBranch {
        top_left: f00,
        top_right: f01,
        bottom_left: f10,
        bottom_right: f11,
    };
    let fh = CachedMacroCellBranch::new_result(frec, cache).0;
    let r = MacroCell::Branch(fh);
    let ghost recs_j = cache.recs();
    proof {
        lemma_step_bound(recs_e, recs_i, recs_j, s);
        assert(rec_entry_ok(recs_j, fh.spec_id() as int));
        lemma_cell_grid_branch(recs_j, fh);
        assert(cell_grid(recs_j, r) == assemble4(
            cell_grid(recs_j, f00),
            cell_grid(recs_j, f01),
            cell_grid(recs_j, f10),
            cell_grid(recs_j, f11),
        ));
        assert(cell_size(recs_j, r) == 2 * cell_size(recs_j, f00));
    }
    r
}

impl MacroCellBranch {
    /// The nine overlapping half-side results of an all-branch record:
    /// its four children's memoized results at the corners, and the
    /// results of the five seam and center records between them, interned
    /// on the way.
    #[verifier::rlimit(100)]
    #[verifier::spinoff_prover]
    fn shifted_results(&self, cache: &mut Cache) -> (r: (
        MacroCell,
        MacroCell,
        MacroCell,
        MacroCell,
        MacroCell,
        MacroCell,
        MacroCell,
        MacroCell,
        MacroCell,
    ))
        requires
            old(cache).wf(),
            rec_ok(old(cache).recs(), *self),
            self.top_left is Branch,
        ensures
            final(cache).wf(),
            recs_extends(old(cache).recs(), final(cache).recs()),
            rec_size(old(cache).recs(), *self) > 4,
            rec_size(old(cache).recs(), *self) % 4 == 0,
            cell_ok(final(cache).recs(), r.0),
            cell_ok(final(cache).recs(), r.1),
            cell_ok(final(cache).recs(), r.2),
            cell_ok(final(cache).recs(), r.3),
            cell_ok(final(cache).recs(), r.4),
            cell_ok(final(cache).recs(), r.5),
            cell_ok(final(cache).recs(), r.6),
            cell_ok(final(cache).recs(), r.7),
            cell_ok(final(cache).recs(), r.8),
            cell_grid(final(cache).recs(), r.0) == window_result(old(cache).recs(), *self, 0, 0),
            cell_grid(final(cache).recs(), r.1) == window_result(old(cache).recs(), *self, 0, 1),
            cell_grid(final(cache).recs(), r.2) == window_result(old(cache).recs(), *self, 0, 2),
            cell_grid(final(cache).recs(), r.3) == window_result(old(cache).recs(), *self, 1, 0),
            cell_grid(final(cache).recs(), r.4) == window_result(old(cache).recs(), *self, 1, 1),
            cell_grid(final(cache).recs(), r.5) == window_result(old(cache).recs(), *self, 1, 2),
            cell_grid(final(cache).recs(), r.6) == window_result(old(cache).recs(), *self, 2, 0),
            cell_grid(final(cache).recs(), r.7) == window_result(old(cache).recs(), *self, 2, 1),
            cell_grid(final(cache).recs(), r.8) == window_result(old(cache).recs(), *self, 2, 2),
            cell_size(final(cache).recs(), r.0) == rec_size(old(cache).recs(), *self) / 4,
            cell_size(final(cache).recs(), r.1) == rec_size(old(cache).recs(), *self) / 4,
            cell_size(final(cache).recs(), r.2) == rec_size(old(cache).recs(), *self) / 4,
            cell_size(final(cache).recs(), r.3) == rec_size(old(cache).recs(), *self) / 4,
            cell_size(final(cache).recs(), r.4) == rec_size(old(cache).recs(), *self) / 4,
            cell_size(final(cache).recs(), r.5) == rec_size(old(cache).recs(), *self) / 4,
            cell_size(final(cache).recs(), r.6) == rec_size(old(cache).recs(), *self) / 4,
            cell_size(final(cache).recs(), r.7) == rec_size(old(cache).recs(), *self) / 4,
            cell_size(final(cache).recs(), r.8) == rec_size(old(cache).recs(), *self) / 4,
            forall|k: int|
                old(cache).recs().len() <= k < final(cache).recs().len() ==> rec_size(
                    final(cache).recs(),
                    #[trigger] final(cache).recs()[k],
                ) <= rec_size(old(cache).recs(), *self) / 2,
        decreases rec_size(old(cache).recs(), *self), 0int,
    {
        let ghost recs0 = old(cache).recs();
        let ghost n = rec_size(recs0, *self);
        let ghost s = n / 2;
        proof {
            lemma_valid_rec(recs0, *self);
        }
        let (b00, b01, b10, b11) = match (
            self.top_left,
            self.top_right,
            self.bottom_left,
            self.bottom_right,
        ) {
            (
                MacroCell::Branch(b00),
                MacroCell::Branch(b01),
                MacroCell::Branch(b10),
                MacroCell::Branch(b11),
            ) => (b00, b01, b10, b11),
            _ => {
                proof {
                    assert(false);
                }
                vstd::pervasive::unreached()
            },
        };
        let rec00 = cache.record_of(b00);
        let rec01 = cache.record_of(b01);
        let rec10 = cache.record_of(b10);
        let rec11 = cache.record_of(b11);
        proof {
            lemma_branch_windows(recs0, *self);
            assert(rec00 == child_rec(recs0, self.top_left));
            assert(rec01 == child_rec(recs0, self.top_right));
            assert(rec10 == child_rec(recs0, self.bottom_left));
            assert(rec11 == child_rec(recs0, self.bottom_right));
        }
        // Row 0 of the nine shifted results.
        let t00 = b00.result(cache);
        let i01 = MacroCellBranch {
            top_left: rec00.top_right,
            top_right: rec01.top_left,
            bottom_left: rec00.bottom_right,
            bottom_right: rec01.bottom_left,
        };
        proof {
            assert(i01 == mid_top(recs0, *self));
        }
        let t01 = CachedMacroCellBranch::new_result(i01, cache).1;
        let ghost recs_a = cache.recs();
        proof {
            lemma_step_bound(recs0, recs0, recs_a, s);
            lemma_entry_rec_ok(recs0, b01.spec_id() as int);
        }
        let t02 = b01.result(cache);
        let i10 = MacroCellBranch {
            top_left: rec00.bottom_left,
            top_right: rec00.bottom_right,
            bottom_left: rec10.top_left,
            bottom_right: rec10.top_right,
        };
        proof {
            assert(i10 == mid_left(recs0, *self));
        }
        // Row 1: the two vertical seams and the center.
        let t10 = CachedMacroCellBranch::new_result(i10, cache).1;
        let ghost recs_b = cache.recs();
        proof {
            lemma_step_bound(recs0, recs_a, recs_b, s);
        }
        let i11 = MacroCellBranch {
            top_left: rec00.bottom_right,
            top_right: rec01.bottom_left,
            bottom_left: rec10.top_right,
            bottom_right: rec11.top_left,
        };
        proof {
            assert(i11 == mid_center(recs0, *self));
        }
        let t11 = CachedMacroCellBranch::new_result(i11, cache).1;
        let ghost recs_c = cache.recs();
        proof {
            lemma_step_bound(recs0, recs_b, recs_c, s);
        }
        let i12 = MacroCellBranch {
            top_left: rec01.bottom_left,
            top_right: rec01.bottom_right,
            bottom_left: rec11.top_left,
            bottom_right: rec11.top_right,
        };
        proof {
            assert(i12 == mid_right(recs0, *self));
        }
        let t12 = CachedMacroCellBranch::new_result(i12, cache).1;
        let ghost recs_d = cache.recs();
        proof {
            lemma_step_bound(recs0, recs_c, recs_d, s);
            lemma_entry_rec_ok(recs0, b10.spec_id() as int);
        }
        // Row 2.
        let t20 = b10.result(cache);
        let i21 = MacroCellBranch {
            top_left: rec10.top_right,
            top_right: rec11.top_left,
            bottom_left: rec10.bottom_right,
            bottom_right: rec11.bottom_left,
        };
        proof {
            assert(i21 == mid_bottom(recs0, *self));
        }
        let t21 = CachedMacroCellBranch::new_result(i21, cache).1;
        let ghost recs_e = cache.recs();
        proof {
            lemma_step_bound(recs0, recs_d, recs_e, s);
            lemma_entry_rec_ok(recs0, b11.spec_id() as int);
        }
        let t22 = b11.result(cache);
        let ghost recs_e = cache.recs();
        proof {
            assert(cell_grid(recs_e, t00) == window_result(recs0, *self, 0, 0));
            assert(cell_grid(recs_e, t22) == window_result(recs0, *self, 2, 2));
        }
        (t00, t01, t02, t10, t11, t12, t20, t21, t22)
    }

    /// Evolve this record forward by the doubling number of generations
    /// and return the centered half-side MacroCell, interning along the
    /// way every record the composition builds. Every record the call
    /// adds to the arena is of a strictly smaller side than this one.
    #[verifier::rlimit(100)]
    #[verifier::spinoff_prover]
    pub fn compute_result(&self, cache: &mut Cache) -> (r: MacroCell)
        requires
            old(cache).wf(),
            rec_ok(old(cache).recs(), *self),
        ensures
            final(cache).wf(),
            recs_extends(old(cache).recs(), final(cache).recs()),
            cell_ok(final(cache).recs(), r),
            cell_grid(final(cache).recs(), r) == hl_result(
                rec_grid(old(cache).recs(), *self),
                rec_size(old(cache).recs(), *self),
            ),
            cell_size(final(cache).recs(), r) == rec_size(old(cache).recs(), *self) / 2,
            forall|k: int|
                old(cache).recs().len() <= k < final(cache).recs().len() ==> rec_size(
                    final(cache).recs(),
                    #[trigger] final(cache).recs()[k],
                ) < rec_size(old(cache).recs(), *self),
        decreases rec_size(old(cache).recs(), *self), 1int,
    {
        let ghost recs0 = old(cache).recs();
        let ghost n = rec_size(recs0, *self);
        let ghost g = rec_grid(recs0, *self);
        proof {
            lemma_valid_rec(recs0, *self);
        }
        match (self.top_left, self.top_right, self.bottom_left, self.bottom_right) {
            (
                MacroCell::Leaf(l00),
                MacroCell::Leaf(l01),
                MacroCell::Leaf(l10),
                MacroCell::Leaf(l11),
            ) => {
                let r = MacroCell::Leaf(leaf_result(l00, l01, l10, l11));
                proof {
                    lemma_cell_grid_leaf(recs0, r->Leaf_0);
                    lemma_cell_grid_leaf(recs0, l00);
                    lemma_cell_grid_leaf(recs0, l01);
                    lemma_cell_grid_leaf(recs0, l10);
                    lemma_cell_grid_leaf(recs0, l11);
                    assert(n == 4);
                }
                r
            },
            (
                MacroCell::Branch(b00),
                MacroCell::Branch(b01),
                MacroCell::Branch(b10),
                MacroCell::Branch(b11),
            ) => {
                let (t00, t01, t02, t10, t11, t12, t20, t21, t22) = self.shifted_results(
                    cache,
                );
                let ghost recs_e = cache.recs();
                let ghost s = n / 2;
                proof {
                    lemma_branch_windows(recs0, *self);
                }
                let r = assemble_results(t00, t01, t02, t10, t11, t12, t20, t21, t22, cache);
                let ghost recs_j = cache.recs();
                proof {
                    lemma_step_bound(recs0, recs_e, recs_j, s);
                    assert(cell_grid(recs_j, r) == hl_result(g, n));
                    assert forall|k: int|
                        recs0.len() <= k < recs_j.len() implies rec_size(
                        recs_j,
                        #[trigger] recs_j[k],
                    ) < n by {}
                }
                r
            },
            _ => {
                proof {
                    assert(false);
                }
                vstd::pervasive::unreached()
            },
        }
    }
}


impl MacroCell {
    /// Decompose a square boolean view into a canonical MacroCell of the
    /// same side, interning every branch record on the way: the returned
    /// cell denotes exactly the view's grid.
    #[verifier::rlimit(100)]
    #[verifier::spinoff_prover]
    pub fn from_square(square: StateBufferView, cache: &mut Cache) -> (r: MacroCell)
        requires
            old(cache).wf(),
            square.wf(),
            square.spec_rows() == square.spec_cols(),
            valid_side(square.spec_rows()),
        ensures
            final(cache).wf(),
            recs_extends(old(cache).recs(), final(cache).recs()),
            cell_ok(final(cache).recs(), r),
            cell_size(final(cache).recs(), r) == square.spec_rows(),
            r is Leaf <==> square.spec_rows() == 2,
            cell_grid(final(cache).recs(), r) == square.grid(),
            forall|c: MacroCell|
                cell_ok(old(cache).recs(), c) ==> #[trigger] cell_grid(final(cache).recs(), c)
                    == cell_grid(old(cache).recs(), c),
            forall|c: MacroCell|
                cell_ok(old(cache).recs(), c) ==> #[trigger] cell_size(final(cache).recs(), c)
                    == cell_size(old(cache).recs(), c),
        decreases square.spec_rows(),
    {
        let ghost recs0 = old(cache).recs();
        let side = square.rows();
        if side == 2 {
            let leaf = MacroCellLeaf {
                top_left: square.at(0, 0),
                top_right: square.at(0, 1),
                bottom_left: square.at(1, 0),
                bottom_right: square.at(1, 1),
            };
            let r = MacroCell::Leaf(leaf);
            proof {
                square.lemma_grid_dims();
                lemma_cell_grid_leaf(recs0, leaf);
                assert(leaf_grid(leaf)[0] =~= square.grid()[0]);
                assert(leaf_grid(leaf)[1] =~= square.grid()[1]);
                assert(leaf_grid(leaf) =~= square.grid());
            }
            r
        } else {
            let cut = side / 2;
            proof {
                assert(valid_side(cut as nat) && cut * 2 == side && cut >= 2);
            }
            let c00 = MacroCell::from_square(square.sub_rectangle(0, cut, 0, cut), cache);
            let c01 = MacroCell::from_square(square.sub_rectangle(0, cut, cut, side), cache);
            let c10 = MacroCell::from_square(square.sub_rectangle(cut, side, 0, cut), cache);
            let c11 = MacroCell::from_square(square.sub_rectangle(cut, side, cut, side), cache);
            let rec = MacroCellBranch {
                top_left: c00,
                top_right: c01,
                bottom_left: c10,
                bottom_right: c11,
            };
            let ghost recs_d = cache.recs();
            proof {
                assert(rec_ok(recs_d, rec));
            }
            let hd = CachedMacroCellBranch::new_result(rec, cache).0;
            let r = MacroCell::Branch(hd);
            let ghost recs_e = cache.recs();
            proof {
                square.lemma_grid_dims();
                assert(rec_entry_ok(recs_e, hd.spec_id() as int));
                lemma_cell_grid_branch(recs_e, hd);
                lemma_assemble_sub_grids(square.grid(), side as nat);
                assert(cell_grid(recs_e, r) == square.grid());
                assert(recs_extends(recs0, recs_e));
                assert forall|c: MacroCell| cell_ok(recs0, c) implies #[trigger] cell_grid(
                    recs_e,
                    c,
                ) == cell_grid(recs0, c) by {
                    lemma_extends_preserves_cell(recs0, recs_e, c);
                }
                assert forall|c: MacroCell| cell_ok(recs0, c) implies #[trigger] cell_size(
                    recs_e,
                    c,
                ) == cell_size(recs0, c) by {
                    lemma_extends_preserves_cell(recs0, recs_e, c);
                }
            }
            r
        }
    }

    /// The evolved center of this cell: `None` on a leaf, which has no
    /// finer resolution to evolve at, and on a branch the memoized
    /// half-side MacroCell its record evolves to.
    pub fn result(&self, cache: &Cache) -> (r: Option<MacroCell>)
        requires
            cache.wf(),
            cell_ok(cache.recs(), *self),
        ensures
            r is None <==> self is Leaf,
            r is Some ==> cell_ok(cache.recs(), r->Some_0) && cell_grid(
                cache.recs(),
                r->Some_0,
            ) == hl_result(cell_grid(cache.recs(), *self), cell_size(cache.recs(), *self))
                && cell_size(cache.recs(), r->Some_0) == cell_size(cache.recs(), *self) / 2,
    {
        match self {
            MacroCell::Leaf(_) => None,
            MacroCell::Branch(h) => {
                proof {
                    assert(rec_entry_ok(cache.recs(), h.spec_id() as int));
                    lemma_cell_grid_branch(cache.recs(), *h);
                }
                Some(h.result(cache))
            },
        }
    }
}

impl MacroCellBranch {
    /// Apply `leaf_map` to the four children of an all-leaf record, or
    /// `branch_map` to the four handles of an all-branch record.
    pub fn map_branches<T, F: FnOnce(
        MacroCellLeaf,
        MacroCellLeaf,
        MacroCellLeaf,
        MacroCellLeaf,
    ) -> T, G: FnOnce(
        CachedMacroCellBranch,
        CachedMacroCellBranch,
        CachedMacroCellBranch,
        CachedMacroCellBranch,
    ) -> T>(&self, leaf_map: F, branch_map: G) -> (r: T)
        requires
            homogeneous(*self),
            self.top_left is Leaf ==> leaf_map.requires(
                (
                    self.top_left->Leaf_0,
                    self.top_right->Leaf_0,
                    self.bottom_left->Leaf_0,
                    self.bottom_right->Leaf_0,
                ),
            ),
            self.top_left is Branch ==> branch_map.requires(
                (
                    branch_handle(self.top_left),
                    branch_handle(self.top_right),
                    branch_handle(self.bottom_left),
                    branch_handle(self.bottom_right),
                ),
            ),
        ensures
            self.top_left is Leaf ==> leaf_map.ensures(
                (
                    self.top_left->Leaf_0,
                    self.top_right->Leaf_0,
                    self.bottom_left->Leaf_0,
                    self.bottom_right->Leaf_0,
                ),
                r,
            ),
            self.top_left is Branch ==> branch_map.ensures(
                (
                    branch_handle(self.top_left),
                    branch_handle(self.top_right),
                    branch_handle(self.bottom_left),
                    branch_handle(self.bottom_right),
                ),
                r,
            ),
    {
        match (self.top_left, self.top_right, self.bottom_left, self.bottom_right) {
            (
                MacroCell::Leaf(l00),
                MacroCell::Leaf(l01),
                MacroCell::Leaf(l10),
                MacroCell::Leaf(l11),
            ) => leaf_map(l00, l01, l10, l11),
            (
                MacroCell::Branch(b00),
                MacroCell::Branch(b01),
                MacroCell::Branch(b10),
                MacroCell::Branch(b11),
            ) => branch_map(b00, b01, b10, b11),
            _ => {
                proof {
                    assert(false);
                }
                vstd::pervasive::unreached()
            },
        }
    }
}

/// Four cells of one side below 2x2 resolution never mix kinds: side 2
/// means leaf, anything larger means branch. So a record of four
/// equal-sided valid cells is fit to intern.
pub proof fn lemma_overlap_rec_ok(
    recs: Seq<MacroCellBranch>,
    a: MacroCell,
    b: MacroCell,
    c: MacroCell,
    d: MacroCell,
    half: nat,
)
    requires
        recs_ok(recs),
        cell_ok(recs, a),
        cell_ok(recs, b),
        cell_ok(recs, c),
        cell_ok(recs, d),
        cell_size(recs, a) == half,
        cell_size(recs, b) == half,
        cell_size(recs, c) == half,
        cell_size(recs, d) == half,
    ensures
        rec_ok(
            recs,
            MacroCellBranch { top_left: a, top_right: b, bottom_left: c, bottom_right: d },
        ),
{
    lemma_valid_cell(recs, a);
    lemma_valid_cell(recs, b);
    lemma_valid_cell(recs, c);
    lemma_valid_cell(recs, d);
}

/// Book-keeping for a growing arena: if everything interned so far past
/// `base` is of side at most `bound`, and one more interning step again
/// only adds records of side at most `bound`, the combined claim holds of
/// the grown arena.
pub proof fn lemma_step_bound(
    base: Seq<MacroCellBranch>,
    prev: Seq<MacroCellBranch>,
    now: Seq<MacroCellBranch>,
    bound: nat,
)
    requires
        recs_ok(prev),
        recs_ok(now),
        recs_extends(base, prev),
        recs_extends(prev, now),
        forall|k: int|
            base.len() <= k < prev.len() ==> rec_size(prev, #[trigger] prev[k]) <= bound,
        forall|k: int|
            prev.len() <= k < now.len() ==> rec_size(now, #[trigger] now[k]) <= bound,
    ensures
        recs_extends(base, now),
        forall|k: int| base.len() <= k < now.len() ==> rec_size(now, #[trigger] now[k]) <= bound,
{
    lemma_extends_trans(base, prev, now);
    assert forall|k: int|
        base.len() <= k < now.len() implies rec_size(now, #[trigger] now[k]) <= bound by {
        if k < prev.len() {
            lemma_entry_rec_ok(prev, k);
            lemma_extends_preserves_rec(prev, now, prev[k]);
        }
    }
}

} // verus!
