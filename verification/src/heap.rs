//! A binary heap of scored positions that keeps the weakest entry at its
//! root, so that a bounded selection can evict it in logarithmic time.

use crate::similarity::ScoreIndex;
use vstd::multiset::Multiset;
use vstd::prelude::*;
use vstd::seq_lib::group_to_multiset_ensures;

verus! {

/// The heap order on the array of a binary heap: no entry ranks above one of
/// its two children, the children of position `i` being `2i + 1` and `2i + 2`.
pub open spec fn weakest_first(s: Seq<ScoreIndex>) -> bool {
    forall|i: int| 0 < i < s.len() ==> !s[(i - 1) / 2].ranks_above(#[trigger] s[i])
}

/// The heap order with one entry still on its way up: position `k` may rank
/// below its parent, and its children already respect that parent.
spec fn ordered_but_up(s: Seq<ScoreIndex>, k: int) -> bool {
    &&& forall|i: int| 0 < i < s.len() && i != k ==> !s[(i - 1) / 2].ranks_above(#[trigger] s[i])
    &&& forall|i: int|
        0 < i < s.len() && (i - 1) / 2 == k && k > 0 ==> !s[(k - 1) / 2].ranks_above(
            #[trigger] s[i],
        )
}

/// The heap order with one entry still on its way down: position `k` may rank
/// above its children, which already respect the parent of `k`.
spec fn ordered_but_down(s: Seq<ScoreIndex>, k: int) -> bool {
    &&& forall|i: int|
        0 < i < s.len() && (i - 1) / 2 != k ==> !s[(i - 1) / 2].ranks_above(#[trigger] s[i])
    &&& forall|i: int|
        0 < i < s.len() && (i - 1) / 2 == k && k > 0 ==> !s[(k - 1) / 2].ranks_above(
            #[trigger] s[i],
        )
}

/// In heap order nothing ranks below the root.
proof fn lemma_root_is_weakest(s: Seq<ScoreIndex>, i: int)
    requires
        weakest_first(s),
        0 <= i < s.len(),
    ensures
        !s[0].ranks_above(s[i]),
    decreases i,
{
    if i > 0 {
        lemma_root_is_weakest(s, (i - 1) / 2);
        assert(!s[(i - 1) / 2].ranks_above(s[i]));
    }
}

/// Exchanging two entries changes the order of an array, not what it holds.
proof fn lemma_exchange_keeps_contents(s: Seq<ScoreIndex>, a: int, b: int)
    requires
        0 <= a < s.len(),
        0 <= b < s.len(),
    ensures
        s.update(a, s[b]).update(b, s[a]).to_multiset() == s.to_multiset(),
{
    broadcast use group_to_multiset_ensures;
    broadcast use vstd::multiset::group_multiset_axioms;

    let mid = s.update(a, s[b]);
    assert(mid.to_multiset() == s.to_multiset().insert(s[b]).remove(s[a]));
    assert(mid.update(b, s[a]).to_multiset() == mid.to_multiset().insert(s[a]).remove(mid[b]));
    assert(mid[b] == s[b]);
    assert(s.to_multiset().count(s[a]) > 0);
    assert(s.to_multiset().count(s[b]) > 0);
    assert(mid.update(b, s[a]).to_multiset() =~= s.to_multiset());
}

fn exchange(items: &mut Vec<ScoreIndex>, a: usize, b: usize)
    requires
        a < old(items)@.len(),
        b < old(items)@.len(),
    ensures
        final(items)@ == old(items)@.update(a as int, old(items)@[b as int]).update(
            b as int,
            old(items)@[a as int],
        ),
        final(items)@.to_multiset() == old(items)@.to_multiset(),
{
    proof {
        lemma_exchange_keeps_contents(items@, a as int, b as int);
    }
    let first = items[a];
    let second = items[b];
    items[a] = second;
    items[b] = first;
}

/// Moves the entry at `start` towards the root until its parent no longer
/// ranks above it.
fn sift_up(items: &mut Vec<ScoreIndex>, start: usize)
    requires
        start < old(items)@.len(),
        ordered_but_up(old(items)@, start as int),
    ensures
        weakest_first(final(items)@),
        final(items)@.to_multiset() == old(items)@.to_multiset(),
{
    let mut child: usize = start;
    loop
        invariant_except_break
            child < items@.len(),
            ordered_but_up(items@, child as int),
        invariant
            items@.to_multiset() == old(items)@.to_multiset(),
        ensures
            weakest_first(items@),
        decreases child,
    {
        if child == 0 {
            break ;
        }
        let parent: usize = (child - 1) / 2;
        if !items[parent].outranks(&items[child]) {
            break ;
        }
        exchange(items, parent, child);
        child = parent;
    }
}

/// Moves the entry at `start` away from the root until it ranks above
/// neither of its children.
fn sift_down(items: &mut Vec<ScoreIndex>, start: usize)
    requires
        start < old(items)@.len(),
        ordered_but_down(old(items)@, start as int),
    ensures
        weakest_first(final(items)@),
        final(items)@.to_multiset() == old(items)@.to_multiset(),
{
    let n: usize = items.len();
    let mut parent: usize = start;
    loop
        invariant_except_break
            parent < n,
            ordered_but_down(items@, parent as int),
        invariant
            n == items@.len(),
            items@.to_multiset() == old(items)@.to_multiset(),
        ensures
            weakest_first(items@),
        decreases n - parent,
    {
        if parent >= n / 2 {
            break ;
        }
        let left: usize = 2 * parent + 1;
        let right: usize = left + 1;
        let mut weakest: usize = left;
        if right < n && items[left].outranks(&items[right]) {
            weakest = right;
        }
        if !items[parent].outranks(&items[weakest]) {
            break ;
        }
        exchange(items, parent, weakest);
        parent = weakest;
    }
}

/// A binary heap of scored positions with the weakest of them at the root.
///
/// The heap holds a multiset: the same entry may be pushed more than once.
pub struct MinHeap {
    items: Vec<ScoreIndex>,
}

impl View for MinHeap {
    type V = Multiset<ScoreIndex>;

    closed spec fn view(&self) -> Multiset<ScoreIndex> {
        self.items@.to_multiset()
    }
}

impl MinHeap {
    #[verifier::type_invariant]
    spec fn heap_ordered(&self) -> bool {
        weakest_first(self.items@)
    }

    /// Whether `entry` is in the multiset `held` and nothing in it ranks
    /// below `entry`.
    pub open spec fn is_weakest_of(entry: ScoreIndex, held: Multiset<ScoreIndex>) -> bool {
        &&& held.count(entry) > 0
        &&& forall|other: ScoreIndex| held.count(other) > 0 ==> !entry.ranks_above(other)
    }

    /// An empty heap.
    pub fn new() -> (heap: MinHeap)
        ensures
            heap@ == Multiset::<ScoreIndex>::empty(),
    {
        let heap = MinHeap { items: Vec::new() };
        proof {
            broadcast use group_to_multiset_ensures;

            vstd::multiset::lemma_multiset_empty_len(heap.items@.to_multiset());
            assert(heap.items@.to_multiset() =~= Multiset::<ScoreIndex>::empty());
        }
        heap
    }

    /// The number of entries, each counted as often as it was pushed.
    pub fn len(&self) -> (n: usize)
        ensures
            n == self@.len(),
    {
        proof {
            broadcast use group_to_multiset_ensures;

        }
        self.items.len()
    }

    /// The weakest entry, or `None` for an empty heap.
    pub fn peek(&self) -> (weakest: Option<&ScoreIndex>)
        ensures
            match weakest {
                Some(entry) => Self::is_weakest_of(*entry, self@),
                None => self@.len() == 0,
            },
    {
        proof {
            use_type_invariant(self);
            broadcast use group_to_multiset_ensures;

        }
        if self.items.len() == 0 {
            None
        } else {
            proof {
                let s = self.items@;
                assert(s.contains(s[0]));
                assert forall|other: ScoreIndex| s.to_multiset().count(other) > 0 implies !s[0].ranks_above(
                    other,
                ) by {
                    assert(s.contains(other));
                    let i = choose|i: int| 0 <= i < s.len() && s[i] == other;
                    lemma_root_is_weakest(s, i);
                }
            }
            Some(&self.items[0])
        }
    }

    /// Adds an entry.
    pub fn push(&mut self, entry: ScoreIndex)
        ensures
            final(self)@ == old(self)@.insert(entry),
    {
        proof {
            use_type_invariant(&*self);
            broadcast use group_to_multiset_ensures;

        }
        let mut items: Vec<ScoreIndex> = Vec::new();
        core::mem::swap(&mut items, &mut self.items);
        let last: usize = items.len();
        items.push(entry);
        sift_up(&mut items, last);
        self.items = items;
    }

    /// Removes the weakest entry and returns it; `None` for an empty heap.
    pub fn pop(&mut self) -> (weakest: Option<ScoreIndex>)
        ensures
            match weakest {
                Some(entry) => Self::is_weakest_of(entry, old(self)@) && final(self)@ == old(
                    self,
                )@.remove(entry),
                None => old(self)@.len() == 0 && final(self)@ == old(self)@,
            },
    {
        proof {
            use_type_invariant(&*self);
            broadcast use group_to_multiset_ensures;

        }
        let mut items: Vec<ScoreIndex> = Vec::new();
        core::mem::swap(&mut items, &mut self.items);
        let n: usize = items.len();
        if n == 0 {
            self.items = items;
            return None;
        }
        let ghost before = items@;
        proof {
            assert(before.contains(before[0]));
            assert forall|other: ScoreIndex| before.to_multiset().count(other) > 0 implies !before[0].ranks_above(
                other,
            ) by {
                assert(before.contains(other));
                let i = choose|i: int| 0 <= i < before.len() && before[i] == other;
                lemma_root_is_weakest(before, i);
            }
        }
        exchange(&mut items, 0, n - 1);
        let ghost exchanged = items@;
        let entry = items.pop().unwrap();
        proof {
            assert(items@ =~= exchanged.remove(n - 1));
            assert(entry == before[0]);
        }
        if items.len() > 0 {
            sift_down(&mut items, 0);
        }
        self.items = items;
        Some(entry)
    }

    /// Empties the heap into a vector that runs from the entry that ranks
    /// highest to the weakest.
    pub fn into_sorted_vec(self) -> (sorted: Vec<ScoreIndex>)
        ensures
            sorted@.to_multiset() == self@,
            forall|i: int, j: int|
                0 <= i < j < sorted@.len() ==> !sorted@[j].ranks_above(sorted@[i]),
    {
        let ghost held = self@;
        let mut heap = self;
        let mut rising: Vec<ScoreIndex> = Vec::new();
        proof {
            broadcast use group_to_multiset_ensures;
            broadcast use vstd::multiset::group_multiset_axioms;

            assert(rising@.to_multiset().add(heap@) =~= held);
        }
        while heap.len() > 0
            invariant
                rising@.to_multiset().add(heap@) == held,
                forall|i: int, j: int|
                    0 <= i < j < rising@.len() ==> !rising@[i].ranks_above(rising@[j]),
                forall|i: int, other: ScoreIndex|
                    0 <= i < rising@.len() && heap@.count(other) > 0 ==> !rising@[i].ranks_above(
                        other,
                    ),
            decreases heap@.len(),
        {
            let ghost left = heap@;
            let ghost risen = rising@;
            let next = heap.pop();
            let entry = next.unwrap();
            rising.push(entry);
            proof {
                broadcast use group_to_multiset_ensures;
                broadcast use vstd::multiset::group_multiset_axioms;

                assert(rising@.to_multiset() =~= risen.to_multiset().insert(entry));
                assert(rising@.to_multiset().add(heap@) =~= held);
                assert forall|i: int, other: ScoreIndex|
                    0 <= i < rising@.len() && heap@.count(other) > 0 implies !rising@[i].ranks_above(
                    other,
                ) by {
                    assert(left.count(other) > 0);
                }
            }
        }
        let n: usize = rising.len();
        let mut sorted: Vec<ScoreIndex> = Vec::new();
        let mut taken: usize = 0;
        while taken < n
            invariant
                n == rising@.len(),
                taken <= n,
                sorted@.len() == taken,
                forall|j: int| 0 <= j < taken ==> sorted@[j] == rising@[n - 1 - j],
            decreases n - taken,
        {
            sorted.push(rising[n - 1 - taken]);
            taken += 1;
        }
        proof {
            broadcast use group_to_multiset_ensures;
            broadcast use vstd::multiset::group_multiset_axioms;

            assert(sorted@ =~= rising@.reverse());
            rising@.lemma_reverse_to_multiset();
            vstd::multiset::lemma_multiset_empty_len(heap@);
            assert(rising@.to_multiset().add(heap@) =~= rising@.to_multiset());
        }
        sorted
    }
}

} // verus!
