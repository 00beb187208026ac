//! An immutable membership structure over destination anchor cells.
use vstd::prelude::*;
use crate::graph::LongEdge;

verus! {

/// The cells of `s` strictly increase.
pub open spec fn strictly_increasing(s: Seq<u64>) -> bool {
    forall|i: int, j: int| 0 <= i < j < s.len() ==> s[i] < s[j]
}

/// A set of cells held as a strictly increasing vector.
pub struct DestinationSet {
    cells: Vec<u64>,
}

impl View for DestinationSet {
    type V = Set<u64>;

    open spec fn view(&self) -> Set<u64> {
        self.spec_cells().to_set()
    }
}

proof fn lemma_push_to_set(s: Seq<u64>, c: u64)
    ensures
        s.push(c).to_set() == s.to_set().insert(c),
{
    assert forall|x: u64| s.push(c).contains(x) implies s.contains(x) || x == c by {
        let i = choose|i: int| 0 <= i < s.len() + 1 && s.push(c)[i] == x;
        if i < s.len() {
            assert(s[i] == x);
        }
    }
    assert forall|x: u64| s.contains(x) implies s.push(c).contains(x) by {
        let i = choose|i: int| 0 <= i < s.len() && s[i] == x;
        assert(s.push(c)[i] == x);
    }
    assert(s.push(c)[s.len() as int] == c);
    assert(s.push(c).to_set() =~= s.to_set().insert(c));
}

impl DestinationSet {
    pub closed spec fn spec_cells(&self) -> Seq<u64> {
        self.cells@
    }

    pub closed spec fn wf(&self) -> bool {
        strictly_increasing(self.cells@)
    }

    /// The first position whose cell is not smaller than `c`.
    fn lower_bound(&self, c: u64) -> (r: usize)
        requires
            self.wf(),
        ensures
            r <= self.cells@.len(),
            forall|i: int| 0 <= i < r ==> self.cells@[i] < c,
            forall|i: int| r <= i < self.cells@.len() ==> self.cells@[i] >= c,
    {
        let mut lo: usize = 0;
        let mut hi: usize = self.cells.len();
        while lo < hi
            invariant
                lo <= hi <= self.cells@.len(),
                strictly_increasing(self.cells@),
                forall|i: int| 0 <= i < lo ==> self.cells@[i] < c,
                forall|i: int| hi <= i < self.cells@.len() ==> self.cells@[i] >= c,
            decreases hi - lo,
        {
            let mid = lo + (hi - lo) / 2;
            if self.cells[mid] < c {
                lo = mid + 1;
            } else {
                hi = mid;
            }
        }
        lo
    }

    /// Builds the set of the given cells.
    pub fn new(cells: &Vec<u64>) -> (r: DestinationSet)
        ensures
            r.wf(),
            r@ == cells@.to_set(),
    {
        let mut set = DestinationSet { cells: Vec::new() };
        let mut k: usize = 0;
        while k < cells.len()
            invariant
                k <= cells@.len(),
                set.wf(),
                set.cells@.to_set() == cells@.subrange(0, k as int).to_set(),
            decreases cells@.len() - k,
        {
            let c = cells[k];
            let pos = set.lower_bound(c);
            let ghost before = set.cells@;
            if pos == set.cells.len() || set.cells[pos] != c {
                set.cells.insert(pos, c);
                assert forall|i: int, j: int| 0 <= i < j < set.cells@.len() implies set.cells@[i]
                    < set.cells@[j] by {
                    if j < pos {
                    } else if i > pos {
                        assert(set.cells@[i] == before[i - 1] && set.cells@[j] == before[j - 1]);
                    } else if i == pos {
                        assert(set.cells@[j] == before[j - 1]);
                    } else {
                        assert(set.cells@[i] == before[i]);
                        if j > pos {
                            assert(set.cells@[j] == before[j - 1]);
                        }
                    }
                }
                assert(set.cells@.to_set() =~= before.to_set().insert(c)) by {
                    assert forall|x: u64| set.cells@.contains(x) implies before.contains(x) || x == c by {
                        let i = choose|i: int| 0 <= i < set.cells@.len() && set.cells@[i] == x;
                        if i < pos {
                            assert(before[i] == x);
                        } else if i > pos {
                            assert(before[i - 1] == x);
                        }
                    }
                    assert forall|x: u64| before.contains(x) implies set.cells@.contains(x) by {
                        let i = choose|i: int| 0 <= i < before.len() && before[i] == x;
                        if i < pos {
                            assert(set.cells@[i] == x);
                        } else {
                            assert(set.cells@[i + 1] == x);
                        }
                    }
                    assert(set.cells@[pos as int] == c);
                }
            } else {
                assert(before.contains(c));
                assert(before.to_set().insert(c) =~= before.to_set());
            }
            assert(cells@.subrange(0, k + 1) =~= cells@.subrange(0, k as int).push(c));
            proof {
                lemma_push_to_set(cells@.subrange(0, k as int), c);
            }
            k = k + 1;
        }
        assert(cells@.subrange(0, k as int) =~= cells@);
        set
    }

    /// Whether `c` is in the set.
    pub fn contains(&self, c: u64) -> (r: bool)
        requires
            self.wf(),
        ensures
            r == self@.contains(c),
    {
        let pos = self.lower_bound(c);
        if pos < self.cells.len() && self.cells[pos] == c {
            assert(self.cells@.contains(c));
            true
        } else {
            assert(!self.cells@.contains(c));
            false
        }
    }

    /// The number of cells in the set.
    pub fn len(&self) -> (r: usize)
        requires
            self.wf(),
        ensures
            r == self@.len(),
    {
        proof {
            self.lemma_len();
        }
        self.cells.len()
    }

    pub proof fn lemma_len(&self)
        requires
            self.wf(),
        ensures
            self@.finite(),
            self@.len() == self.spec_cells().len(),
    {
        assert(self.cells@.no_duplicates());
        self.cells@.unique_seq_to_set();
    }

    /// Whether the set is empty.
    pub fn is_empty(&self) -> (r: bool)
        requires
            self.wf(),
        ensures
            r == (self@.len() == 0),
    {
        self.len() == 0
    }

    /// Whether no interior cell of the long edge is in the set.
    pub fn is_disjoint(&self, le: &LongEdge) -> (r: bool)
        requires
            self.wf(),
        ensures
            r == (forall|c: u64| le.interior_contains(c) ==> !self@.contains(c)),
    {
        let n = le.edges.len();
        let last: usize = if n == 0 {
            0
        } else {
            n - 1
        };
        let mut i: usize = 0;
        while i < last
            invariant
                last == if n == 0 { 0 } else { n - 1 },
                n == le.edges@.len(),
                self.wf(),
                forall|k: int| 0 <= k < i && k < n - 1 ==> !self@.contains(#[trigger] le.edges@[k].destination),
            decreases n - i,
        {
            if self.contains(le.edges[i].destination) {
                assert(le.interior_contains(le.edges@[i as int].destination));
                return false;
            }
            i = i + 1;
        }
        true
    }
}

} // verus!
