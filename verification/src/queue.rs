//! The tiles that an attack is about to conquer, lowest priority value first.

use vstd::multiset::Multiset;
use vstd::prelude::*;
use vstd::seq_lib::*;

verus! {

/// An attack stores at most this many tiles of its border and of its queue.
pub const ATTACK_HEAP_CAP: usize = 4096;

/// An entry comes no later than another: it has the lower priority value, or the same one and no
/// higher a tile index.
pub open spec fn comes_first(a: (i32, u32), b: (i32, u32)) -> bool {
    a.0 < b.0 || (a.0 == b.0 && a.1 <= b.1)
}

/// The entries that stored tiles and priorities stand for. A tile without a priority has
/// priority zero.
pub open spec fn stored_entries(tiles: Seq<u32>, priorities: Seq<i32>) -> Seq<(i32, u32)> {
    Seq::new(
        tiles.len(),
        |i: int|
            (
                if i < priorities.len() {
                    priorities[i]
                } else {
                    0i32
                },
                tiles[i],
            ),
    )
}

/// A priority queue of tiles: a binary heap.
pub struct ConquestQueue {
    items: Vec<(i32, u32)>,
}

/// No entry of the heap comes before its parent, but for the entry at `hole`, of which nothing is
/// said, and with it nothing of its children but that they come after its parent.
spec fn heap_below(s: Seq<(i32, u32)>, hole: int) -> bool {
    &&& forall|i: int|
        #![trigger s[i]]
        0 < i < s.len() && (i - 1) / 2 != hole ==> comes_first(s[(i - 1) / 2], s[i])
    &&& forall|i: int|
        #![trigger s[i]]
        0 < i < s.len() && (i - 1) / 2 == hole && hole > 0 ==> comes_first(s[(hole - 1) / 2], s[i])
}

/// No entry of the heap comes before its parent, but for the entry at `hole`, whose children come
/// after its parent.
spec fn heap_above(s: Seq<(i32, u32)>, hole: int) -> bool {
    &&& forall|i: int|
        #![trigger s[i]]
        0 < i < s.len() && i != hole ==> comes_first(s[(i - 1) / 2], s[i])
    &&& forall|i: int|
        #![trigger s[i]]
        0 < i < s.len() && (i - 1) / 2 == hole && hole > 0 ==> comes_first(s[(hole - 1) / 2], s[i])
}

/// No entry of the heap comes before its parent.
spec fn is_heap(s: Seq<(i32, u32)>) -> bool {
    forall|i: int|
        #![trigger s[i]]
        0 < i < s.len() ==> comes_first(s[(i - 1) / 2], s[i])
}

/// The root of a heap comes first.
proof fn lemma_root_first(s: Seq<(i32, u32)>, i: int)
    requires
        is_heap(s),
        0 <= i < s.len(),
    ensures
        comes_first(s[0], s[i]),
    decreases i,
{
    if i > 0 {
        lemma_root_first(s, (i - 1) / 2);
        assert(comes_first(s[(i - 1) / 2], s[i]));
    }
}

/// Exchanging two entries keeps the multiset.
proof fn lemma_exchange(s: Seq<(i32, u32)>, i: int, j: int)
    requires
        0 <= i < s.len(),
        0 <= j < s.len(),
    ensures
        s.update(i, s[j]).update(j, s[i]).to_multiset() == s.to_multiset(),
{
    broadcast use group_to_multiset_ensures;

    let once = s.update(i, s[j]);
    let twice = once.update(j, s[i]);
    if i == j {
        assert(twice =~= s);
    } else {
        assert(once[j] == s[j]);
        assert(s.to_multiset().count(s[i]) > 0) by {
            assert(s.contains(s[i]));
        }
        assert(once.to_multiset().count(s[j]) > 0) by {
            assert(once.contains(once[j]));
        }
        assert(twice.to_multiset() =~= s.to_multiset());
    }
}

/// Does an entry come no later than another?
fn precedes(a: (i32, u32), b: (i32, u32)) -> (r: bool)
    ensures
        r == comes_first(a, b),
{
    a.0 < b.0 || (a.0 == b.0 && a.1 <= b.1)
}

impl View for ConquestQueue {
    type V = Multiset<(i32, u32)>;

    closed spec fn view(&self) -> Multiset<(i32, u32)> {
        self.items@.to_multiset()
    }
}

impl ConquestQueue {
    /// The entries form a heap.
    pub closed spec fn wf(&self) -> bool {
        is_heap(self.items@)
    }

    /// An empty queue.
    pub fn new() -> (r: ConquestQueue)
        ensures
            r.wf(),
            r@ == Multiset::<(i32, u32)>::empty(),
    {
        broadcast use group_to_multiset_ensures;

        let r = ConquestQueue { items: Vec::new() };
        assert(r@ =~= Multiset::empty());
        r
    }

    /// The number of entries.
    pub fn len(&self) -> (r: usize)
        ensures
            r == self@.len(),
    {
        broadcast use group_to_multiset_ensures;

        self.items.len()
    }

    /// Adds an entry.
    pub fn push(&mut self, priority: i32, tile: u32)
        requires
            old(self).wf(),
        ensures
            final(self).wf(),
            final(self)@ == old(self)@.insert((priority, tile)),
    {
        broadcast use group_to_multiset_ensures;

        self.items.push((priority, tile));
        let mut hole: usize = self.items.len() - 1;
        while hole > 0
            invariant_except_break
                hole < self.items@.len(),
                heap_above(self.items@, hole as int),
                self.items@.to_multiset() == old(self)@.insert((priority, tile)),
            ensures
                is_heap(self.items@),
                self.items@.to_multiset() == old(self)@.insert((priority, tile)),
            decreases hole,
        {
            let parent: usize = (hole - 1) / 2;
            let up: (i32, u32) = self.items[parent];
            let down: (i32, u32) = self.items[hole];
            if precedes(up, down) {
                break;
            }
            let ghost before = self.items@;
            self.items.set(parent, down);
            self.items.set(hole, up);
            proof {
                lemma_exchange(before, parent as int, hole as int);
                let after = self.items@;
                assert forall|i: int|
                    #![trigger after[i]]
                    0 < i < after.len() && i != parent implies comes_first(
                    after[(i - 1) / 2],
                    after[i],
                ) by {
                    assert(before[i] == before[i]);
                    assert(before[(i - 1) / 2] == before[(i - 1) / 2]);
                    if i == hole {
                    } else if (i - 1) / 2 == hole {
                    } else if (i - 1) / 2 == parent {
                    }
                }
                assert forall|i: int|
                    #![trigger after[i]]
                    0 < i < after.len() && (i - 1) / 2 == parent && parent > 0 implies comes_first(
                    after[(parent - 1) / 2],
                    after[i],
                ) by {
                    assert(before[i] == before[i]);
                    assert(before[parent as int] == up);
                    assert(comes_first(before[(parent - 1) / 2], up));
                }
            }
            hole = parent;
        }
    }

    /// Takes out the entry that comes first.
    pub fn pop(&mut self) -> (r: Option<(i32, u32)>)
        requires
            old(self).wf(),
        ensures
            final(self).wf(),
            r is Some <==> old(self)@.len() > 0,
            match r {
                Some(entry) => {
                    &&& old(self)@.contains(entry)
                    &&& forall|other: (i32, u32)| #[trigger]
                        old(self)@.contains(other) ==> comes_first(entry, other)
                    &&& final(self)@ == old(self)@.remove(entry)
                },
                None => final(self)@ == old(self)@,
            },
    {
        broadcast use group_to_multiset_ensures;

        let ghost start = self.items@;
        let last: (i32, u32) = match self.items.pop() {
            Some(last) => last,
            None => {
                return None;
            },
        };
        assert(start =~= self.items@.push(last));
        proof {
            assert forall|other: (i32, u32)| #[trigger]
                old(self)@.contains(other) implies comes_first(start[0], other) by {
                assert(start.contains(other));
                let i = choose|i: int| 0 <= i < start.len() && start[i] == other;
                lemma_root_first(start, i);
            }
            assert(start.contains(start[0]));
            assert(old(self)@.contains(start[0]));
        }
        if self.items.len() == 0 {
            assert(self@ =~= old(self)@.remove(last));
            return Some(last);
        }
        let root: (i32, u32) = self.items[0];
        let ghost shorter = self.items@;
        self.items.set(0, last);
        proof {
            assert(shorter.contains(root)) by {
                assert(shorter[0] == root);
            }
            assert(self.items@.to_multiset() =~= start.to_multiset().remove(root));
            let s = self.items@;
            assert forall|i: int|
                #![trigger s[i]]
                0 < i < s.len() && (i - 1) / 2 != 0 implies comes_first(s[(i - 1) / 2], s[i]) by {
                assert(start[i] == s[i]);
                assert(start[(i - 1) / 2] == s[(i - 1) / 2]);
            }
        }
        let mut hole: usize = 0;
        loop
            invariant_except_break
                hole < self.items@.len(),
                heap_below(self.items@, hole as int),
                hole > 0 ==> comes_first(self.items@[(hole - 1) / 2], self.items@[hole as int]),
                self.items@.to_multiset() == old(self)@.remove(root),
            ensures
                is_heap(self.items@),
                self.items@.to_multiset() == old(self)@.remove(root),
            decreases self.items@.len() - hole,
        {
            let len: usize = self.items.len();
            let ghost before = self.items@;
            if hole >= len / 2 {
                assert forall|i: int|
                    #![trigger before[i]]
                    0 < i < before.len() implies comes_first(before[(i - 1) / 2], before[i]) by {
                    assert((i - 1) / 2 != hole);
                }
                break;
            }
            let mut child: usize = 2 * hole + 1;
            if child + 1 < len && !precedes(self.items[child], self.items[child + 1]) {
                child = child + 1;
            }
            let up: (i32, u32) = self.items[hole];
            let down: (i32, u32) = self.items[child];
            assert(forall|i: int|
                #![trigger before[i]]
                0 < i < before.len() && (i - 1) / 2 == hole ==> (i == 2 * hole + 1 || i == 2 * hole
                    + 2) && comes_first(down, before[i]));
            if precedes(up, down) {
                assert forall|i: int|
                    #![trigger before[i]]
                    0 < i < before.len() implies comes_first(before[(i - 1) / 2], before[i]) by {
                }
                break;
            }
            self.items.set(hole, down);
            self.items.set(child, up);
            proof {
                lemma_exchange(before, hole as int, child as int);
                let after = self.items@;
                assert(before[child as int] == down);
                assert forall|i: int|
                    #![trigger after[i]]
                    0 < i < after.len() && (i - 1) / 2 != child implies comes_first(
                    after[(i - 1) / 2],
                    after[i],
                ) by {
                    assert(before[i] == before[i]);
                    if i == child {
                    } else if (i - 1) / 2 == hole {
                    } else if i == hole {
                    }
                }
                assert forall|i: int|
                    #![trigger after[i]]
                    0 < i < after.len() && (i - 1) / 2 == child implies comes_first(
                    after[(child - 1) / 2],
                    after[i],
                ) by {
                    assert(before[i] == after[i]);
                    assert(comes_first(before[child as int], before[i]));
                }
            }
            hole = child;
        }
        Some(root)
    }

    /// The queue that stored tiles and priorities stand for.
    pub fn restore(tiles: &Vec<u32>, priorities: &Vec<i32>) -> (r: ConquestQueue)
        ensures
            r.wf(),
            r@ == stored_entries(tiles@, priorities@).to_multiset(),
    {
        broadcast use group_to_multiset_ensures;

        let mut r: ConquestQueue = ConquestQueue::new();
        let ghost entries = stored_entries(tiles@, priorities@);
        assert(entries.take(0).to_multiset() =~= Multiset::empty());
        let mut i: usize = 0;
        while i < tiles.len()
            invariant
                i <= tiles@.len(),
                entries == stored_entries(tiles@, priorities@),
                r.wf(),
                r@ == entries.take(i as int).to_multiset(),
            decreases tiles@.len() - i,
        {
            let priority: i32 = if i < priorities.len() { priorities[i] } else { 0 };
            r.push(priority, tiles[i]);
            proof {
                to_multiset_build(entries.take(i as int), entries[i as int]);
                assert(entries.take(i + 1) =~= entries.take(i as int).push(entries[i as int]));
            }
            i += 1;
        }
        assert(entries.take(i as int) =~= entries);
        r
    }

    /// The tiles and priorities to store: all of them, or as many as an attack stores.
    pub fn store(&self) -> (r: (Vec<u32>, Vec<i32>))
        ensures
            r.0@.len() == r.1@.len(),
            r.0@.len() == (if self@.len() <= ATTACK_HEAP_CAP {
                self@.len()
            } else {
                ATTACK_HEAP_CAP as nat
            }),
            stored_entries(r.0@, r.1@).to_multiset().subset_of(self@),
            self@.len() <= ATTACK_HEAP_CAP ==> stored_entries(r.0@, r.1@).to_multiset() == self@,
    {
        let mut tiles: Vec<u32> = Vec::new();
        let mut priorities: Vec<i32> = Vec::new();
        let mut i: usize = 0;
        while i < self.items.len() && i < ATTACK_HEAP_CAP
            invariant
                i <= self.items@.len(),
                i <= ATTACK_HEAP_CAP,
                tiles@.len() == i,
                priorities@.len() == i,
                stored_entries(tiles@, priorities@) == self.items@.take(i as int),
            decreases self.items@.len() - i,
        {
            let ghost before = stored_entries(tiles@, priorities@);
            let (priority, tile): (i32, u32) = self.items[i];
            tiles.push(tile);
            priorities.push(priority);
            assert(stored_entries(tiles@, priorities@) =~= before.push((priority, tile)));
            assert(self.items@.take(i + 1) =~= self.items@.take(i as int).push(
                self.items@[i as int],
            ));
            i += 1;
        }
        proof {
            broadcast use group_to_multiset_ensures;

            let kept = self.items@.take(i as int);
            let left = self.items@.skip(i as int);
            assert(self.items@ =~= kept + left);
            lemma_multiset_commutative(kept, left);
            if self@.len() <= ATTACK_HEAP_CAP {
                assert(kept =~= self.items@);
            }
        }
        (tiles, priorities)
    }
}

} // verus!
