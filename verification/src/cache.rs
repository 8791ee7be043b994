//! The hash-consing and memoization table. Branch records are interned in
//! an arena; a canonical handle is the record's index in that arena, so
//! handle equality coincides with structural equality of the records
//! (records are interned children first and kept unique). Beside every
//! interned record the arena keeps its evolved result, computed once.

use vstd::prelude::*;

use crate::grid::{hl_result, lemma_hl_result_wf, valid_side};
use crate::macro_cell::{
    cell_grid, cell_ok, cell_rank, cell_size, homogeneous, lemma_entry_rec_ok,
    lemma_extends_preserves_cell, lemma_extends_preserves_rec, lemma_valid_cell, lemma_valid_rec,
    rec_entry_ok, rec_grid, rec_guard, rec_ok, rec_size, recs_extends, recs_ok, unique_records,
    MacroCell, MacroCellBranch,
};

verus! {

/// A canonical handle to an interned branch record: its index in the
/// cache's arena. Two handles are equal iff they name the same record.
#[derive(Clone, Copy, PartialEq, Eq, Debug, Structural)]
pub struct CachedMacroCellBranch {
    pub(crate) id: usize,
}

impl CachedMacroCellBranch {
    /// The arena index this handle names.
    pub closed spec fn spec_id(self) -> nat {
        self.id as nat
    }

    /// A handle is nothing but its arena index.
    pub proof fn lemma_id_determines_handle(h1: CachedMacroCellBranch, h2: CachedMacroCellBranch)
        requires
            h1.spec_id() == h2.spec_id(),
        ensures
            h1 == h2,
    {
    }
}

/// The hash-consing and memoization table: the arena of interned branch
/// records, and for each record the MacroCell it evolves to.
pub struct Cache {
    records: Vec<MacroCellBranch>,
    results: Vec<MacroCell>,
}

impl Cache {
    /// The interned records, in order of interning.
    pub closed spec fn recs(self) -> Seq<MacroCellBranch> {
        self.records@
    }

    /// The memoized result of each interned record.
    pub closed spec fn memo(self) -> Seq<MacroCell> {
        self.results@
    }

    /// The cache invariant: one result per record; every record is
    /// homogeneous, refers only to earlier records, and has four children
    /// of one side; no two records are structurally equal; and each stored
    /// result denotes exactly the `hl_result` of its record's grid.
    pub open spec fn wf(self) -> bool {
        &&& self.recs().len() == self.memo().len()
        &&& recs_ok(self.recs())
        &&& unique_records(self.recs())
        &&& forall|i: int|
            0 <= i < self.recs().len() ==> cell_rank(#[trigger] self.memo()[i]) <= i
        &&& forall|i: int|
            0 <= i < self.recs().len() ==> cell_grid(self.recs(), #[trigger] self.memo()[i])
                == hl_result(
                rec_grid(self.recs(), self.recs()[i]),
                rec_size(self.recs(), self.recs()[i]),
            )
    }

    /// An empty cache: nothing interned yet.
    pub fn new() -> (c: Cache)
        ensures
            c.wf(),
            c.recs().len() == 0,
    {
        Cache { records: Vec::new(), results: Vec::new() }
    }

    /// Read back the record a handle names.
    pub fn record_of(&self, h: CachedMacroCellBranch) -> (r: MacroCellBranch)
        requires
            self.wf(),
            h.spec_id() < self.recs().len(),
        ensures
            r == self.recs()[h.spec_id() as int],
            rec_ok(self.recs(), r),
    {
        proof {
            lemma_entry_rec_ok(self.recs(), h.id as int);
        }
        self.records[h.id]
    }
}

impl CachedMacroCellBranch {
    /// Serve the memoized result of this handle's record: an O(1) lookup,
    /// with no recomputation and no growth of the cache.
    pub fn result(&self, cache: &Cache) -> (r: MacroCell)
        requires
            cache.wf(),
            self.spec_id() < cache.recs().len(),
        ensures
            r == cache.memo()[self.spec_id() as int],
            cell_ok(cache.recs(), r),
            cell_rank(r) <= self.spec_id(),
            cell_grid(cache.recs(), r) == hl_result(
                rec_grid(cache.recs(), cache.recs()[self.spec_id() as int]),
                rec_size(cache.recs(), cache.recs()[self.spec_id() as int]),
            ),
            cell_size(cache.recs(), r) == rec_size(
                cache.recs(),
                cache.recs()[self.spec_id() as int],
            ) / 2,
    {
        proof {
            let recs = cache.recs();
            let i = self.spec_id() as int;
            let rec = recs[i];
            let res = cache.memo()[i];
            lemma_entry_rec_ok(recs, i);
            lemma_valid_rec(recs, rec);
            lemma_hl_result_wf(rec_grid(recs, rec), rec_size(recs, rec));
            lemma_valid_cell(recs, res);
            assert(cell_grid(recs, res).len() == cell_size(recs, res));
        }
        self.results_lookup(cache)
    }

    /// The bare memo lookup.
    fn results_lookup(&self, cache: &Cache) -> (r: MacroCell)
        requires
            self.spec_id() < cache.memo().len(),
        ensures
            r == cache.memo()[self.spec_id() as int],
    {
        cache.results[self.id]
    }

    /// Intern a record and return its canonical handle beside its evolved
    /// result. An already-interned record is found again: the existing
    /// handle and the memoized result come back and the cache does not
    /// change. A fresh record has its result computed once, and both are
    /// appended to the arena.
    #[verifier::loop_isolation(false)]
    pub fn new_result(branch: MacroCellBranch, cache: &mut Cache) -> (r: (
        CachedMacroCellBranch,
        MacroCell,
    ))
        requires
            old(cache).wf(),
            rec_ok(old(cache).recs(), branch),
        ensures
            final(cache).wf(),
            recs_extends(old(cache).recs(), final(cache).recs()),
            r.0.spec_id() < final(cache).recs().len(),
            final(cache).recs()[r.0.spec_id() as int] == branch,
            r.1 == final(cache).memo()[r.0.spec_id() as int],
            cell_ok(final(cache).recs(), r.1),
            cell_grid(final(cache).recs(), r.1) == hl_result(
                rec_grid(old(cache).recs(), branch),
                rec_size(old(cache).recs(), branch),
            ),
            cell_size(final(cache).recs(), r.1) == rec_size(old(cache).recs(), branch) / 2,
            old(cache).recs().contains(branch) ==> final(cache).recs() == old(cache).recs()
                && final(cache).memo() == old(cache).memo(),
            forall|k: int|
                old(cache).recs().len() <= k < final(cache).recs().len() ==> rec_size(
                    final(cache).recs(),
                    #[trigger] final(cache).recs()[k],
                ) <= rec_size(old(cache).recs(), branch),
            forall|c: MacroCell|
                cell_ok(old(cache).recs(), c) ==> #[trigger] cell_grid(final(cache).recs(), c)
                    == cell_grid(old(cache).recs(), c),
            forall|c: MacroCell|
                cell_ok(old(cache).recs(), c) ==> #[trigger] cell_size(final(cache).recs(), c)
                    == cell_size(old(cache).recs(), c),
        decreases rec_size(old(cache).recs(), branch), 2int,
    {
        let ghost recs0 = old(cache).recs();
        let n = cache.records.len();
        let mut i: usize = 0;
        while i < n
            invariant
                i <= n,
                forall|j: int| 0 <= j < i ==> recs0[j] != branch,
            decreases n - i,
        {
            if cache.records[i] == branch {
                let res = cache.results[i];
                proof {
                    assert(recs0[i as int] == branch);
                    assert(recs0.contains(branch));
                    lemma_valid_rec(recs0, branch);
                    lemma_hl_result_wf(rec_grid(recs0, branch), rec_size(recs0, branch));
                    lemma_valid_cell(recs0, res);
                    assert(cell_grid(recs0, res).len() == cell_size(recs0, res));
                }
                return (CachedMacroCellBranch { id: i }, res);
            }
            i = i + 1;
        }
        proof {
            assert(!recs0.contains(branch)) by {
                if recs0.contains(branch) {
                    let j = choose|j: int| 0 <= j < recs0.len() && recs0[j] == branch;
                    assert(recs0[j] != branch);
                }
            }
            lemma_valid_rec(recs0, branch);
        }
        let res = branch.compute_result(cache);
        let id = cache.records.len();
        let ghost recs1 = cache.recs();
        proof {
            let recs2 = recs1.push(branch);
            assert(recs_extends(recs1, recs2));
            assert(recs_extends(recs0, recs2));
            lemma_extends_preserves_rec(recs0, recs1, branch);
            lemma_extends_preserves_rec(recs1, recs2, branch);
            // The appended entry refers only backwards and is fit.
            assert(rec_guard(recs2, id as int));
            assert(rec_entry_ok(recs2, id as int));
            // Old entries are untouched, so they stay fit and their memo
            // entries still denote the results of their records.
            assert forall|j: int| 0 <= j < id implies rec_entry_ok(recs2, j) by {
                assert(rec_entry_ok(recs1, j));
                lemma_entry_rec_ok(recs1, j);
                lemma_extends_preserves_rec(recs1, recs2, recs1[j]);
            }
            assert forall|j: int| 0 <= j < id implies cell_grid(recs2, #[trigger] cache.memo()[j])
                == hl_result(rec_grid(recs2, recs2[j]), rec_size(recs2, recs2[j])) by {
                lemma_entry_rec_ok(recs1, j);
                lemma_extends_preserves_rec(recs1, recs2, recs1[j]);
                lemma_extends_preserves_cell(recs1, recs2, cache.memo()[j]);
            }
            // The new record differs from every interned one: the scan
            // ruled the old entries out, and the records interned while
            // computing the result are all of a strictly smaller side.
            assert forall|j: int| 0 <= j < id implies recs2[j] != branch by {
                assert(recs2[j] == recs1[j]);
                if j < n {
                    assert(recs1[j] == recs0[j]);
                    assert(recs0[j] != branch);
                } else {
                    assert(rec_size(recs1, recs1[j]) < rec_size(recs0, branch));
                    assert(rec_size(recs1, branch) == rec_size(recs0, branch));
                }
            }
            // The computed result still denotes the evolution of the
            // record once both are read over the extended arena.
            lemma_extends_preserves_cell(recs1, recs2, res);
            assert(cell_grid(recs2, res) == hl_result(
                rec_grid(recs2, branch),
                rec_size(recs2, branch),
            ));
        }
        cache.records.push(branch);
        cache.results.push(res);
        proof {
            assert forall|k: int|
                recs0.len() <= k < cache.recs().len() implies rec_size(
                cache.recs(),
                #[trigger] cache.recs()[k],
            ) <= rec_size(recs0, branch) by {
                assert(recs_extends(recs1, cache.recs()));
                if k < id {
                    assert(cache.recs()[k] == recs1[k]);
                    lemma_entry_rec_ok(recs1, k);
                    lemma_extends_preserves_rec(recs1, cache.recs(), recs1[k]);
                } else {
                    assert(cache.recs()[k] == branch);
                }
            }
            assert forall|c: MacroCell| cell_ok(recs0, c) implies #[trigger] cell_grid(
                cache.recs(),
                c,
            ) == cell_grid(recs0, c) by {
                lemma_extends_preserves_cell(recs0, cache.recs(), c);
            }
            assert forall|c: MacroCell| cell_ok(recs0, c) implies #[trigger] cell_size(
                cache.recs(),
                c,
            ) == cell_size(recs0, c) by {
                lemma_extends_preserves_cell(recs0, cache.recs(), c);
            }
        }
        (CachedMacroCellBranch { id }, res)
    }
}

/// Homogeneity: every record the cache ever interned has four children of
/// one kind — all leaves, or all branches.
pub proof fn lemma_interned_homogeneous(c: Cache, i: int)
    requires
        c.wf(),
        0 <= i < c.recs().len(),
    ensures
        homogeneous(c.recs()[i]),
{
    assert(rec_entry_ok(c.recs(), i));
}

/// Canonical identity: two structurally equal records interned in one
/// cache are the same record, at the same index — so equality of handles
/// coincides with structural equality of what they stand for.
pub proof fn lemma_interned_unique(c: Cache, i: int, j: int)
    requires
        c.wf(),
        0 <= i < c.recs().len(),
        0 <= j < c.recs().len(),
        c.recs()[i] == c.recs()[j],
    ensures
        i == j,
{
}

} // verus!
