//! An ordered index from scale and offset to a place in the texture.

use crate::scale_offset::GlyphScaleOffset;
use vstd::prelude::*;

verus! {

/// Where a glyph of some scale and offset stands in the texture.
#[derive(Clone, Copy, Debug)]
pub struct TreeEntry {
    /// The scale and offset at which the glyph was drawn.
    pub spec: GlyphScaleOffset,
    /// The top of the texture row that holds it.
    pub row: u32,
    /// Its number within that row.
    pub index: usize,
}

impl TreeEntry {
    /// The place of the entry in the order.
    pub open spec fn rank(self) -> int {
        self.spec.rank_spec()
    }
}

/// The entries are in ascending order, and no two are of the same rank.
pub open spec fn ascending(entries: Seq<TreeEntry>) -> bool {
    forall|i: int, j: int|
        0 <= i < j < entries.len() ==> (#[trigger] entries[i]).rank() < (#[trigger] entries[j]).rank()
}

/// The first `n` entries rank below `rank`, and no other does.
pub open spec fn splits(entries: Seq<TreeEntry>, rank: int, n: int) -> bool {
    &&& 0 <= n <= entries.len()
    &&& forall|i: int| 0 <= i < n ==> (#[trigger] entries[i]).rank() < rank
    &&& forall|i: int| n <= i < entries.len() ==> (#[trigger] entries[i]).rank() >= rank
}

/// The number of entries that rank below `rank`.
pub open spec fn below(entries: Seq<TreeEntry>, rank: int) -> int {
    choose|n: int| splits(entries, rank, n)
}

/// Whether the entries hold one of this rank.
pub open spec fn holds_rank(entries: Seq<TreeEntry>, rank: int) -> bool {
    let n = below(entries, rank);
    n < entries.len() && entries[n].rank() == rank
}

/// The entries with `spec` standing at a place. An entry of the same rank keeps its
/// own scale and offset and gets the new place.
pub open spec fn inserted(
    entries: Seq<TreeEntry>,
    spec: GlyphScaleOffset,
    row: u32,
    index: usize,
) -> Seq<TreeEntry> {
    let n = below(entries, spec.rank_spec());
    if holds_rank(entries, spec.rank_spec()) {
        entries.update(n, TreeEntry { spec: entries[n].spec, row, index })
    } else {
        entries.insert(n, TreeEntry { spec, row, index })
    }
}

/// The entries without the one of the rank of `spec`.
pub open spec fn removed(entries: Seq<TreeEntry>, spec: GlyphScaleOffset) -> Seq<TreeEntry> {
    if holds_rank(entries, spec.rank_spec()) {
        entries.remove(below(entries, spec.rank_spec()))
    } else {
        entries
    }
}

/// Only one number splits the entries at a rank.
pub proof fn lemma_below_is(entries: Seq<TreeEntry>, rank: int, n: int)
    requires
        splits(entries, rank, n),
    ensures
        below(entries, rank) == n,
{
    let m = below(entries, rank);
    assert(splits(entries, rank, m));
    if m < n {
        assert(entries[m].rank() < rank);
    } else if n < m {
        assert(entries[n].rank() < rank);
    }
}

/// Ascending entries split at every rank.
pub proof fn lemma_below(entries: Seq<TreeEntry>, rank: int)
    requires
        ascending(entries),
    ensures
        splits(entries, rank, below(entries, rank)),
    decreases entries.len(),
{
    if entries.len() == 0 {
        assert(splits(entries, rank, 0));
    } else if entries.last().rank() < rank {
        assert(splits(entries, rank, entries.len() as int));
    } else {
        let front = entries.drop_last();
        lemma_below(front, rank);
        let n = below(front, rank);
        assert forall|i: int| 0 <= i < n implies (#[trigger] entries[i]).rank() < rank by {
            assert(front[i] == entries[i]);
        }
        assert forall|i: int| n <= i < entries.len() implies (#[trigger] entries[i]).rank()
            >= rank by {
            if i < front.len() {
                assert(front[i] == entries[i]);
            }
        }
        assert(splits(entries, rank, n));
    }
}

/// An entry of a rank, if there is one, is what `holds_rank` finds.
pub proof fn lemma_holds_rank(entries: Seq<TreeEntry>, rank: int)
    requires
        ascending(entries),
    ensures
        forall|e: TreeEntry|
            #[trigger] entries.contains(e) && e.rank() == rank ==> holds_rank(entries, rank)
                && entries[below(entries, rank)] == e,
        !holds_rank(entries, rank) ==> forall|i: int|
            0 <= i < entries.len() ==> (#[trigger] entries[i]).rank() != rank,
{
    lemma_below(entries, rank);
    let n = below(entries, rank);
    assert forall|i: int| 0 <= i < entries.len() && (#[trigger] entries[i]).rank() == rank implies i
        == n by {
        if i > n {
            assert(entries[n].rank() < entries[i].rank());
        }
    }
}

/// What inserting does to the entries.
pub proof fn lemma_inserted(
    entries: Seq<TreeEntry>,
    spec: GlyphScaleOffset,
    row: u32,
    index: usize,
)
    requires
        ascending(entries),
    ensures
        ascending(inserted(entries, spec, row, index)),
        ({
            let after = inserted(entries, spec, row, index);
            let n = below(entries, spec.rank_spec());
            &&& 0 <= n < after.len()
            &&& after[n].rank() == spec.rank_spec()
            &&& after[n].row == row
            &&& after[n].index == index
            &&& !holds_rank(entries, spec.rank_spec()) ==> after[n].spec == spec
            &&& forall|e: TreeEntry| #[trigger]
                after.contains(e) <==> e == after[n] || (entries.contains(e) && e.rank()
                    != spec.rank_spec())
        }),
{
    let rank = spec.rank_spec();
    let n = below(entries, rank);
    let after = inserted(entries, spec, row, index);
    lemma_below(entries, rank);
    lemma_holds_rank(entries, rank);
    if holds_rank(entries, rank) {
        assert forall|i: int, j: int| 0 <= i < j < after.len() implies (
        #[trigger] after[i]).rank() < (#[trigger] after[j]).rank() by {
            assert(entries[i].rank() < entries[j].rank());
        }
        assert forall|e: TreeEntry|
            e == after[n] || (entries.contains(e) && e.rank() != rank) implies #[trigger]
        after.contains(e) by {
            if e != after[n] {
                let i = choose|i: int| 0 <= i < entries.len() && entries[i] == e;
                assert(after[i] == e);
            }
        }
        assert forall|e: TreeEntry| #[trigger] after.contains(e) implies e == after[n] || (
        entries.contains(e) && e.rank() != rank) by {
            let i = choose|i: int| 0 <= i < after.len() && after[i] == e;
            if i != n {
                assert(entries[i] == e);
                assert(i < n ==> entries[i].rank() < entries[n].rank());
                assert(i > n ==> entries[n].rank() < entries[i].rank());
            }
        }
    } else {
        assert forall|i: int, j: int| 0 <= i < j < after.len() implies (
        #[trigger] after[i]).rank() < (#[trigger] after[j]).rank() by {
            if j < n {
                assert(entries[i].rank() < entries[j].rank());
            } else if i < n && n < j {
                assert(entries[i].rank() < entries[j - 1].rank());
            } else if n < i {
                assert(entries[i - 1].rank() < entries[j - 1].rank());
            }
        }
        assert forall|e: TreeEntry|
            e == after[n] || (entries.contains(e) && e.rank() != rank) implies #[trigger]
        after.contains(e) by {
            if e == after[n] {
            } else {
                let i = choose|i: int| 0 <= i < entries.len() && entries[i] == e;
                if i < n {
                    assert(after[i] == e);
                } else {
                    assert(after[i + 1] == e);
                }
            }
        }
        assert forall|e: TreeEntry| #[trigger] after.contains(e) implies e == after[n] || (
        entries.contains(e) && e.rank() != rank) by {
            let i = choose|i: int| 0 <= i < after.len() && after[i] == e;
            if i < n {
                assert(entries[i] == e);
            } else if i > n {
                assert(entries[i - 1] == e);
            }
        }
    }
}

/// What removing does to the entries.
pub proof fn lemma_removed(entries: Seq<TreeEntry>, spec: GlyphScaleOffset)
    requires
        ascending(entries),
    ensures
        ascending(removed(entries, spec)),
        forall|e: TreeEntry| #[trigger]
            removed(entries, spec).contains(e) <==> entries.contains(e) && e.rank()
                != spec.rank_spec(),
{
    let rank = spec.rank_spec();
    let n = below(entries, rank);
    let after = removed(entries, spec);
    lemma_below(entries, rank);
    lemma_holds_rank(entries, rank);
    if holds_rank(entries, rank) {
        assert forall|i: int, j: int| 0 <= i < j < after.len() implies (
        #[trigger] after[i]).rank() < (#[trigger] after[j]).rank() by {
            let a = if i < n { i } else { i + 1 };
            let b = if j < n { j } else { j + 1 };
            assert(entries[a].rank() < entries[b].rank());
        }
        assert forall|e: TreeEntry| entries.contains(e) && e.rank() != rank implies #[trigger]
        after.contains(e) by {
            let i = choose|i: int| 0 <= i < entries.len() && entries[i] == e;
            if i < n {
                assert(after[i] == e);
            } else {
                assert(after[i - 1] == e);
            }
        }
        assert forall|e: TreeEntry| #[trigger] after.contains(e) implies entries.contains(e)
            && e.rank() != rank by {
            let i = choose|i: int| 0 <= i < after.len() && after[i] == e;
            let a = if i < n { i } else { i + 1 };
            assert(entries[a] == e);
            assert(a < n ==> entries[a].rank() < entries[n].rank());
            assert(a > n ==> entries[n].rank() < entries[a].rank());
        }
    }
}

/// The cached versions of one glyph of one font, in ascending order.
#[derive(Debug)]
pub struct GlyphTree {
    entries: Vec<TreeEntry>,
}

/// The view of a tree: its entries.
impl View for GlyphTree {
    type V = Seq<TreeEntry>;

    closed spec fn view(&self) -> Seq<TreeEntry> {
        self.entries@
    }
}

impl GlyphTree {
    /// A tree without entries.
    pub fn new() -> (tree: Self)
        ensures
            tree@ == Seq::<TreeEntry>::empty(),
    {
        GlyphTree { entries: Vec::new() }
    }

    /// The number of entries.
    pub fn len(&self) -> (len: usize)
        ensures
            len == self@.len(),
    {
        self.entries.len()
    }

    /// The entry at a place in the order.
    pub fn get(&self, i: usize) -> (entry: TreeEntry)
        requires
            i < self@.len(),
        ensures
            entry == self@[i as int],
    {
        self.entries[i]
    }

    /// The number of entries that rank below `rank`.
    pub fn count_below(&self, rank: u128) -> (n: usize)
        requires
            ascending(self@),
        ensures
            n == below(self@, rank as int),
            splits(self@, rank as int, n as int),
    {
        let mut low: usize = 0;
        let mut high: usize = self.entries.len();
        while low < high
            invariant
                ascending(self@),
                low <= high <= self.entries.len(),
                forall|i: int| 0 <= i < low ==> (#[trigger] self@[i]).rank() < rank,
                forall|i: int| high <= i < self@.len() ==> (#[trigger] self@[i]).rank() >= rank,
            decreases high - low,
        {
            let mid: usize = low + (high - low) / 2;
            if self.entries[mid].spec.rank() < rank {
                low = mid + 1;
            } else {
                high = mid;
            }
        }
        proof {
            lemma_below_is(self@, rank as int, low as int);
        }
        low
    }

    /// Lets `spec` stand at a place in the texture.
    pub fn insert(&mut self, spec: GlyphScaleOffset, row: u32, index: usize)
        requires
            ascending(old(self)@),
        ensures
            final(self)@ == inserted(old(self)@, spec, row, index),
            ascending(final(self)@),
    {
        let rank: u128 = spec.rank();
        let n: usize = self.count_below(rank);
        proof {
            lemma_inserted(self@, spec, row, index);
        }
        if n < self.entries.len() && self.entries[n].spec.rank() == rank {
            let kept: GlyphScaleOffset = self.entries[n].spec;
            self.entries.set(n, TreeEntry { spec: kept, row, index });
        } else {
            self.entries.insert(n, TreeEntry { spec, row, index });
        }
    }

    /// Removes the entry of the rank of `spec`, if there is one.
    pub fn remove(&mut self, spec: &GlyphScaleOffset)
        requires
            ascending(old(self)@),
        ensures
            final(self)@ == removed(old(self)@, *spec),
            ascending(final(self)@),
    {
        let rank: u128 = spec.rank();
        let n: usize = self.count_below(rank);
        proof {
            lemma_removed(self@, *spec);
        }
        if n < self.entries.len() && self.entries[n].spec.rank() == rank {
            let _ = self.entries.remove(n);
        }
    }
}

} // verus!
