use vstd::prelude::*;

verus! {

/// A half-open interval `[start, end)` during which a user is unavailable.
#[derive(Clone, Copy, Debug, PartialEq, Eq, Structural)]
pub struct Block {
    pub start: u64,
    pub end: u64,
}

impl Block {
    /// A block is well formed when it has positive length.
    pub open spec fn wf(self) -> bool {
        self.start < self.end
    }

    /// Two half-open intervals share at least one instant.
    pub open spec fn overlaps(self, other: Block) -> bool {
        self.start < other.end && self.end > other.start
    }

    /// Builds a block, refusing one whose end does not come after its start.
    pub fn new(start: u64, end: u64) -> (r: Option<Block>)
        ensures
            r == (if start < end { Some(Block { start, end }) } else { None::<Block> }),
    {
        if start < end {
            Some(Block { start, end })
        } else {
            None
        }
    }

    /// Whether the two blocks share at least one instant.
    pub fn intersects(&self, other: &Block) -> (r: bool)
        ensures
            r == self.overlaps(*other),
    {
        self.start < other.end && self.end > other.start
    }
}

/// Blocks ordered by start, each well formed, each ending no later than the next begins.
pub open spec fn sorted_disjoint(s: Seq<Block>) -> bool {
    &&& forall|i: int| 0 <= i < s.len() ==> (#[trigger] s[i]).wf()
    &&& forall|i: int, j: int| 0 <= i < j < s.len() ==> (#[trigger] s[i]).end <= (#[trigger] s[j]).start
}

/// No two distinct entries of the sequence overlap.
pub open spec fn pairwise_disjoint(s: Seq<Block>) -> bool {
    forall|i: int, j: int| 0 <= i < s.len() && 0 <= j < s.len() && i != j
        ==> !(#[trigger] s[i]).overlaps(#[trigger] s[j])
}

/// Some entry of `s` overlaps `b`.
pub open spec fn overlaps_any(s: Seq<Block>, b: Block) -> bool {
    exists|i: int| 0 <= i < s.len() && (#[trigger] s[i]).overlaps(b)
}

/// A sorted sequence of disjoint blocks holds no overlapping pair.
pub proof fn lemma_sorted_disjoint_is_pairwise(s: Seq<Block>)
    requires
        sorted_disjoint(s),
    ensures
        pairwise_disjoint(s),
{
    assert forall|i: int, j: int| 0 <= i < s.len() && 0 <= j < s.len() && i != j
        implies !(#[trigger] s[i]).overlaps(#[trigger] s[j]) by {
        if i < j {
            assert(s[i].end <= s[j].start);
        } else {
            assert(s[j].end <= s[i].start);
        }
    }
}

/// The position at which `b` belongs in a sorted sequence: the number of entries that
/// start before it.
pub fn insertion_point(s: &Vec<Block>, b: &Block) -> (r: usize)
    requires
        sorted_disjoint(s@),
    ensures
        r <= s@.len(),
        forall|i: int| 0 <= i < r ==> (#[trigger] s@[i]).start < b.start,
        forall|i: int| r <= i < s@.len() ==> (#[trigger] s@[i]).start >= b.start,
{
    let mut i: usize = 0;
    while i < s.len() && s[i].start < b.start
        invariant
            sorted_disjoint(s@),
            i <= s@.len(),
            forall|k: int| 0 <= k < i ==> (#[trigger] s@[k]).start < b.start,
        decreases s@.len() - i,
    {
        i = i + 1;
    }
    proof {
        assert forall|k: int| i <= k < s@.len() implies (#[trigger] s@[k]).start >= b.start by {
            if k > i {
                assert(s@[i as int].end <= s@[k].start);
            }
        }
    }
    i
}

/// Whether `b` overlaps a block of a sorted sequence, found by looking only at the
/// block that precedes its insertion point and the one that follows it.
pub fn overlaps_neighbour(s: &Vec<Block>, b: &Block, pos: usize) -> (r: bool)
    requires
        sorted_disjoint(s@),
        b.wf(),
        pos <= s@.len(),
        forall|i: int| 0 <= i < pos ==> (#[trigger] s@[i]).start < b.start,
        forall|i: int| pos <= i < s@.len() ==> (#[trigger] s@[i]).start >= b.start,
    ensures
        r == overlaps_any(s@, *b),
{
    let before = pos > 0 && s[pos - 1].end > b.start;
    let after = pos < s.len() && s[pos].start < b.end;
    proof {
        if before {
            assert(s@[pos - 1].overlaps(*b));
        } else if after {
            assert(s@[pos as int].overlaps(*b));
        } else {
            assert forall|k: int| 0 <= k < s@.len() implies !(#[trigger] s@[k]).overlaps(*b) by {
                if k < pos - 1 {
                    assert(s@[k].end <= s@[pos - 1].start);
                } else if k > pos {
                    assert(s@[pos as int].end <= s@[k].start);
                }
            }
        }
    }
    before || after
}

/// Inserting a block that overlaps none keeps a sequence sorted and disjoint.
pub proof fn lemma_insert_keeps_sorted(s: Seq<Block>, b: Block, pos: int)
    requires
        sorted_disjoint(s),
        b.wf(),
        0 <= pos <= s.len(),
        forall|i: int| 0 <= i < pos ==> (#[trigger] s[i]).start < b.start,
        forall|i: int| pos <= i < s.len() ==> (#[trigger] s[i]).start >= b.start,
        !overlaps_any(s, b),
    ensures
        sorted_disjoint(s.insert(pos, b)),
{
    let t = s.insert(pos, b);
    assert forall|i: int, j: int| 0 <= i < j < t.len() implies (#[trigger] t[i]).end <= (#[trigger] t[j]).start by {
        if j == pos {
            assert(!s[i].overlaps(b));
        } else if i == pos {
            assert(!s[j - 1].overlaps(b));
        } else if j < pos {
        } else if i > pos {
        } else {
            assert(t[i] == s[i] && t[j] == s[j - 1]);
        }
    }
}

/// The set of blocks after an insertion gains exactly the inserted block.
pub proof fn lemma_insert_to_set(s: Seq<Block>, pos: int, b: Block)
    requires
        0 <= pos <= s.len(),
    ensures
        s.insert(pos, b).to_set() == s.to_set().insert(b),
{
    let t = s.insert(pos, b);
    assert forall|x: Block| t.to_set().contains(x) <==> s.to_set().insert(b).contains(x) by {
        if t.to_set().contains(x) {
            let j = choose|j: int| 0 <= j < t.len() && t[j] == x;
            if j < pos {
                assert(s[j] == x);
            } else if j > pos {
                assert(s[j - 1] == x);
            }
        }
        if s.to_set().contains(x) {
            let j = choose|j: int| 0 <= j < s.len() && s[j] == x;
            if j < pos {
                assert(t[j] == x);
            } else {
                assert(t[j + 1] == x);
            }
        }
        if x == b {
            assert(t[pos] == b);
        }
    }
    assert(t.to_set() =~= s.to_set().insert(b));
}

/// Removing the entry at `i` of a sorted sequence leaves the set of blocks that do not start
/// where that entry starts, and keeps the sequence sorted.
pub proof fn lemma_remove_sorted(s: Seq<Block>, i: int)
    requires
        sorted_disjoint(s),
        0 <= i < s.len(),
    ensures
        sorted_disjoint(s.remove(i)),
        s.remove(i).to_set() == s.to_set().filter(|b: Block| b.start != s[i].start),
{
    let t = s.remove(i);
    let st = s[i].start;
    assert forall|k: int, l: int| 0 <= k < l < t.len() implies (#[trigger] t[k]).end <= (#[trigger] t[l]).start by {
        let k2 = if k < i { k } else { k + 1 };
        let l2 = if l < i { l } else { l + 1 };
        assert(t[k] == s[k2] && t[l] == s[l2]);
    }
    assert forall|k: int| 0 <= k < t.len() implies (#[trigger] t[k]).wf() by {
        let k2 = if k < i { k } else { k + 1 };
        assert(t[k] == s[k2]);
    }
    assert forall|x: Block| t.to_set().contains(x) <==> s.to_set().filter(|b: Block| b.start != st).contains(x) by {
        if t.to_set().contains(x) {
            let j = choose|j: int| 0 <= j < t.len() && t[j] == x;
            let j2 = if j < i { j } else { j + 1 };
            assert(s[j2] == x);
            if j2 < i {
                assert(s[j2].end <= s[i].start);
            } else {
                assert(s[i].end <= s[j2].start);
            }
        }
        if s.to_set().contains(x) && x.start != st {
            let j = choose|j: int| 0 <= j < s.len() && s[j] == x;
            if j < i {
                assert(t[j] == x);
            } else {
                assert(j != i);
                assert(t[j - 1] == x);
            }
        }
    }
    assert(t.to_set() =~= s.to_set().filter(|b: Block| b.start != st));
}

} // verus!
