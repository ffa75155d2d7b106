//! The frontier (open set): cells discovered but not yet expanded.
//!
//! The open set holds snapshots of grid cells, keyed by cell id; a cell id
//! appears at most once.  Selection scans from the highest index downward
//! and keeps the first strictly-lower-ranked cell found, so among equally
//! ranked cells the lowest index that beats every later candidate wins.
//! This exact tie-break policy makes the search deterministic.

use vstd::prelude::*;

use crate::grid::Cell;
use crate::score::{score_lt, spec_score_lt};

verus! {

/// A cell that carries a rank: discovered, with `g` and `hsq` inside the
/// bounds that exact score comparison supports.
pub open spec fn spec_cell_ranked(c: Cell) -> bool {
    &&& c.g is Some
    &&& c.g.unwrap() <= crate::MAX_ITERS
    &&& c.hsq <= crate::MAX_HSQ
}

/// Ranking order between two discovered cells:
/// `g_a + sqrt(hsq_a) < g_b + sqrt(hsq_b)`.
pub open spec fn spec_cell_lt(a: Cell, b: Cell) -> bool {
    spec_score_lt(a.g.unwrap() as int, a.hsq as int, b.g.unwrap() as int, b.hsq as int)
}

/// Some member of `s` carries the id.
pub open spec fn spec_contains_id(s: Seq<Cell>, id: usize) -> bool {
    exists|j: int| 0 <= j < s.len() && #[trigger] s[j].id == id
}

/// Index of the first member of `s` with the id, `-1` when there is none.
pub open spec fn spec_first_with_id(s: Seq<Cell>, id: usize) -> int
    decreases s.len(),
{
    if s.len() == 0 {
        -1
    } else if s[0].id == id {
        0
    } else {
        let r = spec_first_with_id(s.drop_first(), id);
        if r < 0 {
            -1
        } else {
            r + 1
        }
    }
}

/// `spec_first_with_id` finds exactly the first occurrence.
pub proof fn lemma_first_with_id(s: Seq<Cell>, id: usize)
    ensures
        ({
            let r = spec_first_with_id(s, id);
            &&& (r == -1 <==> !spec_contains_id(s, id))
            &&& (r >= 0 ==> r < s.len() && s[r].id == id && (forall|m: int|
                0 <= m < r ==> #[trigger] s[m].id != id))
        }),
    decreases s.len(),
{
    if s.len() == 0 {
    } else if s[0].id == id {
        assert(spec_contains_id(s, id));
    } else {
        let t = s.drop_first();
        lemma_first_with_id(t, id);
        assert(forall|m: int| 0 <= m < t.len() ==> #[trigger] t[m] == s[m + 1]);
        let rt = spec_first_with_id(t, id);
        if rt < 0 {
            assert forall|j: int| 0 <= j < s.len() implies #[trigger] s[j].id != id by {
                if j > 0 {
                    assert(t[j - 1] == s[j]);
                    assert(t[j - 1].id != id);
                }
            }
        } else {
            assert(s[rt + 1] == t[rt]);
            assert(s[rt + 1].id == id);
            assert(spec_contains_id(s, id));
            assert forall|m: int| 0 <= m < rt + 1 implies #[trigger] s[m].id != id by {
                if m > 0 {
                    assert(s[m] == t[m - 1]);
                }
            }
        }
    }
}

/// The index the selection scan settles on, continuing downward from
/// candidate index `ii` with current best index `best`.
pub open spec fn spec_scan_from(s: Seq<Cell>, ii: int, best: int) -> int
    decreases ii + 1,
{
    if ii < 0 {
        best
    } else {
        spec_scan_from(
            s,
            ii - 1,
            if spec_cell_lt(s[ii], s[best]) {
                ii
            } else {
                best
            },
        )
    }
}

/// The index the full selection scan picks: start with index 0 as best,
/// examine indices from the top down, switch on strict improvement.
pub open spec fn spec_scan_best(s: Seq<Cell>) -> int {
    spec_scan_from(s, s.len() - 1, 0)
}

/// The scan stays inside the sequence.
pub proof fn lemma_scan_from_range(s: Seq<Cell>, ii: int, best: int)
    requires
        0 <= best < s.len(),
        ii < s.len(),
    ensures
        0 <= spec_scan_from(s, ii, best) < s.len(),
    decreases ii + 1,
{
    if ii >= 0 {
        lemma_scan_from_range(
            s,
            ii - 1,
            if spec_cell_lt(s[ii], s[best]) {
                ii
            } else {
                best
            },
        );
    }
}

/// Reads the path cost of a discovered cell.
pub fn cell_g(c: &Cell) -> (gv: u64)
    requires
        c.g is Some,
    ensures
        gv == c.g.unwrap(),
{
    match c.g {
        Some(v) => v,
        None => 0,
    }
}

/// Exact ranking comparison between two discovered cells.
pub fn cell_lt(a: &Cell, b: &Cell) -> (res: bool)
    requires
        spec_cell_ranked(*a),
        spec_cell_ranked(*b),
    ensures
        res == spec_cell_lt(*a, *b),
{
    let ga = cell_g(a);
    let gb = cell_g(b);
    score_lt(ga, a.hsq, gb, b.hsq)
}

/// The open set: an ordered list of discovered cell snapshots with
/// pairwise distinct ids.
pub struct OpenSet {
    /// The member snapshots, in insertion order.
    pub items: Vec<Cell>,
}

impl OpenSet {
    /// Pairwise distinct ids, every member discovered and in rank bounds.
    pub open spec fn wf(self) -> bool {
        &&& forall|i: int, j: int|
            0 <= i < j < self.items@.len() ==> #[trigger] self.items@[i].id != #[trigger] self.items@[j].id
        &&& forall|i: int| 0 <= i < self.items@.len() ==> spec_cell_ranked(#[trigger] self.items@[i])
    }

    /// An empty open set.
    pub fn new() -> (s: OpenSet)
        ensures
            s.items@.len() == 0,
            s.wf(),
    {
        OpenSet { items: Vec::new() }
    }

    /// Number of members.
    pub fn len(&self) -> (n: usize)
        ensures
            n == self.items@.len(),
    {
        self.items.len()
    }

    /// The member at an index.
    pub fn get(&self, i: usize) -> (c: Cell)
        requires
            i < self.items@.len(),
        ensures
            c == self.items@[i as int],
    {
        self.items[i]
    }

    /// Membership test by id.
    pub fn contains_id(&self, id: usize) -> (res: bool)
        ensures
            res == spec_contains_id(self.items@, id),
    {
        let n = self.items.len();
        let mut k: usize = 0;
        while k < n
            invariant
                n == self.items@.len(),
                k <= n,
                forall|m: int| 0 <= m < k ==> #[trigger] self.items@[m].id != id,
            decreases n - k,
        {
            if self.items[k].id == id {
                return true;
            }
            k = k + 1;
        }
        false
    }

    /// Adds a snapshot unless a member already carries its id.
    pub fn push(&mut self, c: Cell)
        requires
            old(self).wf(),
            spec_cell_ranked(c),
        ensures
            final(self).wf(),
            final(self).items@ == (if spec_contains_id(old(self).items@, c.id) {
                old(self).items@
            } else {
                old(self).items@.push(c)
            }),
    {
        if !self.contains_id(c.id) {
            self.items.push(c);
        }
    }

    /// Removes the member with the id, if any.
    pub fn remove_id(&mut self, id: usize)
        requires
            old(self).wf(),
        ensures
            final(self).wf(),
            final(self).items@ == (if spec_contains_id(old(self).items@, id) {
                old(self).items@.remove(spec_first_with_id(old(self).items@, id))
            } else {
                old(self).items@
            }),
            !spec_contains_id(final(self).items@, id),
    {
        proof {
            lemma_first_with_id(self.items@, id);
        }
        let n = self.items.len();
        let mut k: usize = 0;
        while k < n
            invariant
                old(self) == self,
                self.wf(),
                n == self.items@.len(),
                k <= n,
                forall|m: int| 0 <= m < k ==> #[trigger] self.items@[m].id != id,
            decreases n - k,
        {
            if self.items[k].id == id {
                proof {
                    lemma_first_with_id(self.items@, id);
                    let r = spec_first_with_id(self.items@, id);
                    assert(spec_contains_id(self.items@, id));
                    assert(r == k);
                }
                self.items.remove(k);
                proof {
                    assert forall|i: int, j: int|
                        0 <= i < j < self.items@.len() implies #[trigger] self.items@[i].id
                        != #[trigger] self.items@[j].id by {
                        assert(self.items@[i] == (if i < k {
                            old(self).items@[i]
                        } else {
                            old(self).items@[i + 1]
                        }));
                        assert(self.items@[j] == (if j < k {
                            old(self).items@[j]
                        } else {
                            old(self).items@[j + 1]
                        }));
                    }
                    assert forall|i: int|
                        0 <= i < self.items@.len() implies spec_cell_ranked(
                        #[trigger] self.items@[i],
                    ) by {
                        assert(self.items@[i] == (if i < k {
                            old(self).items@[i]
                        } else {
                            old(self).items@[i + 1]
                        }));
                    }
                    assert forall|i: int|
                        0 <= i < self.items@.len() implies #[trigger] self.items@[i].id != id by {
                        assert(self.items@[i] == (if i < k {
                            old(self).items@[i]
                        } else {
                            old(self).items@[i + 1]
                        }));
                    }
                }
                return ;
            }
            k = k + 1;
        }
    }

    /// Index of the best-ranked member, under the downward-scan tie-break.
    pub fn find_best(&self) -> (best: usize)
        requires
            self.wf(),
            self.items@.len() > 0,
        ensures
            best as int == spec_scan_best(self.items@),
            best < self.items@.len(),
    {
        proof {
            lemma_scan_from_range(self.items@, self.items@.len() - 1, 0);
        }
        let mut best: usize = 0;
        let mut ii: usize = self.items.len();
        while ii > 0
            invariant
                self.wf(),
                0 < self.items@.len(),
                best < self.items@.len(),
                ii <= self.items@.len(),
                spec_scan_best(self.items@) == spec_scan_from(
                    self.items@,
                    ii - 1,
                    best as int,
                ),
            decreases ii,
        {
            ii = ii - 1;
            let a = self.items[ii];
            let b = self.items[best];
            if cell_lt(&a, &b) {
                best = ii;
            }
        }
        best
    }

    /// Removes and returns the best-ranked member.
    pub fn pop_best(&mut self) -> (c: Cell)
        requires
            old(self).wf(),
            old(self).items@.len() > 0,
        ensures
            final(self).wf(),
            c == old(self).items@[spec_scan_best(old(self).items@)],
            final(self).items@ == old(self).items@.remove(
                spec_first_with_id(old(self).items@, c.id),
            ),
            !spec_contains_id(final(self).items@, c.id),
    {
        let i = self.find_best();
        let c = self.items[i];
        proof {
            assert(spec_contains_id(self.items@, c.id));
        }
        self.remove_id(c.id);
        c
    }
}

/// With pairwise distinct ids, the size of the open set always equals the
/// number of distinct member ids: adding a member whose id is already
/// present never grows the set.
pub proof fn lemma_open_set_size(s: OpenSet)
    requires
        s.wf(),
    ensures
        s.items@.map(|i: int, c: Cell| c.id).to_set().len() == s.items@.len(),
{
    let ids = s.items@.map(|i: int, c: Cell| c.id);
    assert forall|i: int, j: int|
        0 <= i < ids.len() && 0 <= j < ids.len() && i != j implies ids[i] != ids[j] by {
        if i < j {
            assert(s.items@[i].id != s.items@[j].id);
        } else {
            assert(s.items@[j].id != s.items@[i].id);
        }
    }
    assert(ids.no_duplicates());
    ids.unique_seq_to_set();
}

} // verus!
