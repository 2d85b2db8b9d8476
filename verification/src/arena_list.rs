//! A doubly linked list whose nodes live in an arena of slots.
//!
//! Nodes are addressed by slot number. A node that leaves the list keeps its
//! slot until `release` hands the slot to the free list, from which later
//! insertions take their slots again before the arena grows.

use vstd::prelude::*;

verus! {

/// A stored value together with the slots of its neighbours in the list.
#[derive(Clone, Copy)]
pub struct ArenaNode<T> {
    pub value: T,
    pub prev: Option<usize>,
    pub next: Option<usize>,
}

/// The slot that precedes position `i` of `chain`, if any.
pub open spec fn prev_of(chain: Seq<usize>, i: int) -> Option<usize> {
    if i == 0 {
        None
    } else {
        Some(chain[i - 1])
    }
}

/// The slot that follows position `i` of `chain`, if any.
pub open spec fn next_of(chain: Seq<usize>, i: int) -> Option<usize> {
    if i + 1 == chain.len() {
        None
    } else {
        Some(chain[i + 1])
    }
}

/// First in, first out, for both order queues: their inserts append at the
/// back (`push`) and their head removals drop the front (`drop_first`).
/// Removing the head `k` times leaves the queue without its first `k`
/// entries; so once every entry that waited before `a` and `b` arrived has
/// left, `a` is at the head and `b` right behind it, and arrivals never
/// overtake the entries already waiting.
pub proof fn law_first_in_first_out<T>(waiting: Seq<T>, a: T, b: T)
    ensures
        forall|s: Seq<T>, k: int| 0 <= k < s.len() ==> #[trigger] s.skip(k).drop_first() == s.skip(k + 1),
        waiting.push(a).push(b).skip(waiting.len() as int) == seq![a, b],
        forall|k: int|
            0 <= k <= waiting.len() ==> #[trigger] waiting.push(a).push(b).skip(k) == waiting.skip(k).push(a).push(
                b,
            ),
{
    assert forall|s: Seq<T>, k: int| 0 <= k < s.len() implies #[trigger] s.skip(k).drop_first() == s.skip(
        k + 1,
    ) by {
        assert(s.skip(k).drop_first() =~= s.skip(k + 1));
    }
    assert(waiting.push(a).push(b).skip(waiting.len() as int) =~= seq![a, b]);
    assert forall|k: int| 0 <= k <= waiting.len() implies #[trigger] waiting.push(a).push(b).skip(k)
        == waiting.skip(k).push(a).push(b) by {
        assert(waiting.push(a).push(b).skip(k) =~= waiting.skip(k).push(a).push(b));
    }
}

/// `waiting` after each of `arrivals` has been appended in turn, as the
/// queues' inserts append (`push`).
pub open spec fn appended<T>(waiting: Seq<T>, arrivals: Seq<T>) -> Seq<T>
    decreases arrivals.len(),
{
    if arrivals.len() == 0 {
        waiting
    } else {
        appended(waiting, arrivals.drop_last()).push(arrivals.last())
    }
}

/// Appending arrivals one at a time puts them after what waits, in order.
pub proof fn lemma_appended<T>(waiting: Seq<T>, arrivals: Seq<T>)
    ensures
        appended(waiting, arrivals) == waiting + arrivals,
    decreases arrivals.len(),
{
    if arrivals.len() > 0 {
        lemma_appended(waiting, arrivals.drop_last());
        assert(waiting + arrivals.drop_last() + seq![arrivals.last()] =~= waiting + arrivals);
        assert((waiting + arrivals.drop_last()).push(arrivals.last()) =~= waiting + arrivals);
    } else {
        assert(waiting + arrivals =~= waiting);
    }
}

/// A first-in, first-out list of values kept in an arena of slots.
pub struct ArenaList<T> {
    slots: Vec<ArenaNode<T>>,
    free: Vec<usize>,
    head: Option<usize>,
    tail: Option<usize>,
    chain: Ghost<Seq<usize>>,
}

impl<T> ArenaList<T> {
    /// The slots of the list's nodes, from head to tail.
    pub closed spec fn chain(&self) -> Seq<usize> {
        self.chain@
    }

    /// The recycled slots, in the order in which they were released.
    pub closed spec fn free_slots(&self) -> Seq<usize> {
        self.free@
    }

    /// How many slots the arena has allocated.
    pub closed spec fn slot_count(&self) -> nat {
        self.slots@.len()
    }

    /// The node stored in slot `s`.
    pub closed spec fn node_at(&self, s: int) -> ArenaNode<T> {
        self.slots@[s]
    }

    /// The values of the list, from head to tail.
    pub open spec fn values(&self) -> Seq<T> {
        Seq::new(self.chain().len(), |i: int| self.node_at(self.chain()[i] as int).value)
    }

    /// The list structure is consistent: every node of the chain lives in a
    /// slot of its own, none of them is free, and each node's links name its
    /// neighbours in the chain.
    pub closed spec fn links_ok(&self) -> bool {
        let c = self.chain@;
        let f = self.free@;
        &&& c.no_duplicates()
        &&& f.no_duplicates()
        &&& forall|i: int| 0 <= i < c.len() ==> #[trigger] c[i] < self.slots@.len()
        &&& forall|i: int| 0 <= i < f.len() ==> #[trigger] f[i] < self.slots@.len()
        &&& forall|i: int| 0 <= i < c.len() ==> !f.contains(#[trigger] c[i])
        &&& forall|i: int|
            0 <= i < c.len() ==> (#[trigger] self.slots@[c[i] as int]).prev == prev_of(c, i)
                && self.slots@[c[i] as int].next == next_of(c, i)
        &&& self.head == (if c.len() == 0 {
            None
        } else {
            Some(c[0])
        })
        &&& self.tail == (if c.len() == 0 {
            None
        } else {
            Some(c[c.len() - 1])
        })
    }

    /// The list is consistent and every slot is either in the list or free.
    pub closed spec fn wf(&self) -> bool {
        &&& self.links_ok()
        &&& self.chain@.len() + self.free@.len() == self.slots@.len()
    }

    /// The list is consistent and `slot` is the one slot that is neither in
    /// the list nor free: it has been unlinked and not yet released.
    pub closed spec fn detached(&self, slot: usize) -> bool {
        &&& self.links_ok()
        &&& self.chain@.len() + self.free@.len() + 1 == self.slots@.len()
        &&& slot < self.slots@.len()
        &&& !self.chain@.contains(slot)
        &&& !self.free@.contains(slot)
    }

    /// Facts about a well-formed list that its users rely on.
    pub proof fn lemma_wf_facts(&self)
        requires
            self.wf(),
        ensures
            self.chain().no_duplicates(),
            self.free_slots().no_duplicates(),
            forall|i: int| 0 <= i < self.chain().len() ==> #[trigger] self.chain()[i] < self.slot_count(),
            forall|i: int| 0 <= i < self.free_slots().len() ==> #[trigger] self.free_slots()[i] < self.slot_count(),
            self.chain().len() + self.free_slots().len() == self.slot_count(),
            forall|i: int|
                0 <= i < self.chain().len() ==> (#[trigger] self.node_at(self.chain()[i] as int)).prev
                    == prev_of(self.chain(), i) && self.node_at(self.chain()[i] as int).next
                    == next_of(self.chain(), i),
    {
    }

    /// What it means for `slot` to be detached.
    pub proof fn lemma_detached_facts(&self, slot: usize)
        requires
            self.detached(slot),
        ensures
            self.links_ok(),
            slot < self.slot_count(),
            !self.chain().contains(slot),
            !self.free_slots().contains(slot),
    {
    }

    /// An empty list with no slots.
    pub fn new() -> (list: Self)
        ensures
            list.wf(),
            list.chain() == Seq::<usize>::empty(),
            list.free_slots() == Seq::<usize>::empty(),
            list.slot_count() == 0,
    {
        ArenaList { slots: Vec::new(), free: Vec::new(), head: None, tail: None, chain: Ghost(Seq::empty()) }
    }
}


impl<T: Copy> ArenaList<T> {
    /// The slot of the first node, if the list is not empty.
    pub fn head(&self) -> (h: Option<usize>)
        requires
            self.wf(),
        ensures
            h == (if self.chain().len() == 0 {
                None
            } else {
                Some(self.chain()[0])
            }),
    {
        self.head
    }

    /// The slot of the last node, if the list is not empty.
    pub fn tail(&self) -> (t: Option<usize>)
        requires
            self.wf(),
        ensures
            t == (if self.chain().len() == 0 {
                None
            } else {
                Some(self.chain().last())
            }),
    {
        self.tail
    }

    /// How many slots the arena has allocated.
    pub fn slot_len(&self) -> (n: usize)
        ensures
            n == self.slot_count(),
    {
        self.slots.len()
    }

    /// How many released slots wait to be reused.
    pub fn free_len(&self) -> (n: usize)
        ensures
            n == self.free_slots().len(),
    {
        self.free.len()
    }

    /// The node stored in `slot`.
    pub fn node(&self, slot: usize) -> (n: ArenaNode<T>)
        requires
            slot < self.slot_count(),
        ensures
            n == self.node_at(slot as int),
    {
        self.slots[slot]
    }

    /// Replaces the value stored in `slot`, keeping its links.
    pub fn set_value(&mut self, slot: usize, value: T)
        requires
            old(self).wf(),
            slot < old(self).slot_count(),
        ensures
            final(self).wf(),
            final(self).chain() == old(self).chain(),
            final(self).free_slots() == old(self).free_slots(),
            final(self).slot_count() == old(self).slot_count(),
            final(self).node_at(slot as int) == (ArenaNode {
                value,
                prev: old(self).node_at(slot as int).prev,
                next: old(self).node_at(slot as int).next,
            }),
            forall|s: int|
                0 <= s < old(self).slot_count() && s != slot ==> #[trigger] final(self).node_at(s)
                    == old(self).node_at(s),
    {
        let mut n = self.slots[slot];
        n.value = value;
        self.slots.set(slot, n);
        proof {
            let c = self.chain@;
            assert forall|i: int| 0 <= i < c.len() implies (#[trigger] self.slots@[c[i] as int]).prev
                == prev_of(c, i) && self.slots@[c[i] as int].next == next_of(c, i) by {
                assert(old(self).slots@[c[i] as int].prev == prev_of(c, i));
            }
        }
    }

    /// Appends the detached node in `slot` at the tail of the list.
    fn link_at_tail(&mut self, slot: usize)
        requires
            old(self).detached(slot),
        ensures
            final(self).wf(),
            final(self).chain() == old(self).chain().push(slot),
            final(self).free_slots() == old(self).free_slots(),
            final(self).slot_count() == old(self).slot_count(),
            final(self).node_at(slot as int) == (ArenaNode {
                value: old(self).node_at(slot as int).value,
                prev: prev_of(final(self).chain(), old(self).chain().len() as int),
                next: None::<usize>,
            }),
            forall|s: int|
                0 <= s < old(self).slot_count() ==> (#[trigger] final(self).node_at(s)).value
                    == old(self).node_at(s).value,
    {
        let old_tail = self.tail;
        match old_tail {
            None => {
                self.head = Some(slot);
            },
            Some(t) => {
                let mut tn = self.slots[t];
                tn.next = Some(slot);
                self.slots.set(t, tn);
            },
        }
        let mut n = self.slots[slot];
        n.prev = old_tail;
        n.next = None;
        self.slots.set(slot, n);
        self.tail = Some(slot);
        proof {
            let c = old(self).chain@;
            let c2 = c.push(slot);
            self.chain@ = c2;
            assert(c2.no_duplicates()) by {
                assert forall|i: int, j: int|
                    0 <= i < c2.len() && 0 <= j < c2.len() && i != j implies c2[i] != c2[j] by {
                    if i < c.len() && j < c.len() {
                        assert(c[i] != c[j]);
                    } else if i < c.len() {
                        assert(c.contains(c[i]));
                    } else {
                        assert(c.contains(c[j]));
                    }
                }
            }
            assert forall|i: int| 0 <= i < c2.len() implies #[trigger] c2[i] < self.slots@.len() by {
                if i < c.len() {
                    assert(c[i] < old(self).slots@.len());
                }
            }
            assert forall|i: int| 0 <= i < c2.len() implies !self.free@.contains(#[trigger] c2[i]) by {
                if i < c.len() {
                    assert(!self.free@.contains(c[i]));
                }
            }
            assert forall|i: int|
                0 <= i < c2.len() implies (#[trigger] self.slots@[c2[i] as int]).prev == prev_of(c2, i)
                && self.slots@[c2[i] as int].next == next_of(c2, i) by {
                if i + 1 < c.len() {
                    assert(old(self).slots@[c[i] as int].prev == prev_of(c, i));
                    assert(c[i] != c[c.len() - 1]);
                    assert(c[i] != slot) by {
                        assert(c.contains(c[i]));
                    }
                } else if i + 1 == c.len() {
                    assert(old(self).slots@[c[i] as int].prev == prev_of(c, i));
                    assert(c[i] != slot) by {
                        assert(c.contains(c[i]));
                    }
                }
            }
            assert forall|s: int| 0 <= s < old(self).slot_count() implies (#[trigger] self.node_at(s)).value
                == old(self).node_at(s).value by {}
        }
    }

    /// Appends `value` at the tail, taking the most recently released slot if
    /// there is one and a new slot otherwise. Returns the slot used.
    pub fn push_back(&mut self, value: T) -> (slot: usize)
        requires
            old(self).wf(),
        ensures
            final(self).wf(),
            final(self).chain() == old(self).chain().push(slot),
            !old(self).chain().contains(slot),
            final(self).values() == old(self).values().push(value),
            final(self).node_at(slot as int) == (ArenaNode {
                value,
                prev: prev_of(final(self).chain(), old(self).chain().len() as int),
                next: None::<usize>,
            }),
            old(self).free_slots().len() > 0 ==> {
                &&& slot == old(self).free_slots().last()
                &&& final(self).free_slots() == old(self).free_slots().drop_last()
                &&& final(self).slot_count() == old(self).slot_count()
            },
            old(self).free_slots().len() == 0 ==> {
                &&& slot == old(self).slot_count()
                &&& final(self).free_slots() == old(self).free_slots()
                &&& final(self).slot_count() == old(self).slot_count() + 1
            },
            forall|s: int|
                0 <= s < old(self).slot_count() && s != slot ==> (#[trigger] final(self).node_at(s)).value
                    == old(self).node_at(s).value,
    {
        let fresh = ArenaNode { value, prev: None, next: None };
        let slot: usize;
        match self.free.pop() {
            Some(s) => {
                proof {
                    let f = old(self).free@;
                    assert(f[f.len() - 1] == s);
                    assert(s < self.slots@.len());
                    assert(!self.chain@.contains(s)) by {
                        if self.chain@.contains(s) {
                            let i = choose|i: int| 0 <= i < self.chain@.len() && self.chain@[i] == s;
                            assert(!f.contains(self.chain@[i]));
                        }
                    }
                    assert(!self.free@.contains(s)) by {
                        if self.free@.contains(s) {
                            let j = choose|j: int| 0 <= j < self.free@.len() && self.free@[j] == s;
                            assert(f[j] == f[f.len() - 1]);
                        }
                    }
                }
                self.slots.set(s, fresh);
                slot = s;
            },
            None => {
                slot = self.slots.len();
                self.slots.push(fresh);
                proof {
                    assert(!self.chain@.contains(slot)) by {
                        if self.chain@.contains(slot) {
                            let i = choose|i: int| 0 <= i < self.chain@.len() && self.chain@[i] == slot;
                            assert(self.chain@[i] < old(self).slots@.len());
                        }
                    }
                }
            },
        }
        proof {
            let c = self.chain@;
            let f = self.free@;
            let of = old(self).free@;
            assert(f.no_duplicates()) by {
                assert forall|i: int, j: int|
                    0 <= i < f.len() && 0 <= j < f.len() && i != j implies f[i] != f[j] by {
                    assert(of[i] != of[j]);
                }
            }
            assert forall|i: int| 0 <= i < f.len() implies #[trigger] f[i] < self.slots@.len() by {
                assert(of[i] < old(self).slots@.len());
            }
            assert forall|i: int| 0 <= i < c.len() implies !f.contains(#[trigger] c[i]) by {
                assert(!of.contains(c[i]));
                if f.contains(c[i]) {
                    let j = choose|j: int| 0 <= j < f.len() && f[j] == c[i];
                    assert(of[j] == c[i]);
                }
            }
            assert forall|i: int| 0 <= i < c.len() implies #[trigger] c[i] < self.slots@.len() by {
                assert(c[i] < old(self).slots@.len());
            }
            assert forall|i: int|
                0 <= i < c.len() implies (#[trigger] self.slots@[c[i] as int]).prev == prev_of(c, i)
                && self.slots@[c[i] as int].next == next_of(c, i) by {
                assert(old(self).slots@[c[i] as int].prev == prev_of(c, i));
                assert(c[i] != slot) by {
                    assert(c.contains(c[i]));
                }
            }
        }
        self.link_at_tail(slot);
        proof {
            assert(self.values() =~= old(self).values().push(value));
        }
        slot
    }

    /// Takes the node in `slot` out of the list. The node keeps its slot and
    /// its contents until the slot is released.
    pub fn unlink(&mut self, slot: usize)
        requires
            old(self).wf(),
            old(self).chain().contains(slot),
        ensures
            final(self).detached(slot),
            final(self).links_ok(),
            final(self).chain() == old(self).chain().remove(old(self).chain().index_of(slot)),
            final(self).values() == old(self).values().remove(old(self).chain().index_of(slot)),
            final(self).free_slots() == old(self).free_slots(),
            final(self).slot_count() == old(self).slot_count(),
            forall|s: int|
                0 <= s < old(self).slot_count() ==> (#[trigger] final(self).node_at(s)).value
                    == old(self).node_at(s).value,
    {
        let ghost c = self.chain@;
        let ghost p = c.index_of(slot);
        let node = self.slots[slot];
        proof {
            assert(0 <= p < c.len() && c[p] == slot);
            assert(self.slots@[c[p] as int].prev == prev_of(c, p));
        }
        match node.prev {
            Some(pv) => {
                let mut pn = self.slots[pv];
                pn.next = node.next;
                self.slots.set(pv, pn);
            },
            None => {
                self.head = node.next;
            },
        }
        match node.next {
            Some(nx) => {
                let mut nn = self.slots[nx];
                nn.prev = node.prev;
                self.slots.set(nx, nn);
            },
            None => {
                self.tail = node.prev;
            },
        }
        proof {
            let c2 = c.remove(p);
            self.chain@ = c2;
            assert(c2.len() == c.len() - 1);
            assert forall|i: int| 0 <= i < c2.len() implies c2[i] == (if i < p {
                c[i]
            } else {
                c[i + 1]
            }) by {}
            assert(c2.no_duplicates()) by {
                assert forall|i: int, j: int|
                    0 <= i < c2.len() && 0 <= j < c2.len() && i != j implies c2[i] != c2[j] by {
                    let ii = if i < p {
                        i
                    } else {
                        i + 1
                    };
                    let jj = if j < p {
                        j
                    } else {
                        j + 1
                    };
                    assert(c[ii] != c[jj]);
                }
            }
            assert forall|i: int| 0 <= i < c2.len() implies #[trigger] c2[i] < self.slots@.len() by {
                let ii = if i < p {
                    i
                } else {
                    i + 1
                };
                assert(c[ii] < old(self).slots@.len());
            }
            assert forall|i: int| 0 <= i < c2.len() implies !self.free@.contains(#[trigger] c2[i]) by {
                let ii = if i < p {
                    i
                } else {
                    i + 1
                };
                assert(!self.free@.contains(c[ii]));
            }
            assert forall|i: int|
                0 <= i < c2.len() implies (#[trigger] self.slots@[c2[i] as int]).prev == prev_of(c2, i)
                && self.slots@[c2[i] as int].next == next_of(c2, i) by {
                let ii = if i < p {
                    i
                } else {
                    i + 1
                };
                assert(old(self).slots@[c[ii] as int].prev == prev_of(c, ii));
                assert(old(self).slots@[c[ii] as int].next == next_of(c, ii));
                if p > 0 {
                    assert(c[ii] != c[p - 1] || ii == p - 1);
                }
                if p + 1 < c.len() {
                    assert(c[ii] != c[p + 1] || ii == p + 1);
                }
            }
            assert(!c2.contains(slot)) by {
                if c2.contains(slot) {
                    let i = choose|i: int| 0 <= i < c2.len() && c2[i] == slot;
                    let ii = if i < p {
                        i
                    } else {
                        i + 1
                    };
                    assert(c[ii] == c[p]);
                }
            }
            assert(!self.free@.contains(slot)) by {
                assert(!self.free@.contains(c[p]));
            }
            assert(slot < self.slots@.len()) by {
                assert(c[p] < old(self).slots@.len());
            }
            assert forall|s: int| 0 <= s < old(self).slot_count() implies (#[trigger] self.node_at(s)).value
                == old(self).node_at(s).value by {}
            assert(self.values() =~= old(self).values().remove(p));
        }
    }

    /// Hands `slot` to the free list if it is an allocated slot that is not
    /// free already; returns whether it was.
    pub fn release(&mut self, slot: usize) -> (found: bool)
        requires
            old(self).links_ok(),
            !old(self).chain().contains(slot),
        ensures
            found == (slot < old(self).slot_count() && !old(self).free_slots().contains(slot)),
            found ==> final(self).free_slots() == old(self).free_slots().push(slot),
            !found ==> final(self).free_slots() == old(self).free_slots(),
            old(self).detached(slot) ==> found && final(self).wf(),
            final(self).links_ok(),
            final(self).chain() == old(self).chain(),
            final(self).slot_count() == old(self).slot_count(),
            forall|s: int| #[trigger] final(self).node_at(s) == old(self).node_at(s),
    {
        if slot >= self.slots.len() {
            return false;
        }
        let mut i: usize = 0;
        while i < self.free.len()
            invariant
                0 <= i <= self.free@.len(),
                self.links_ok(),
                forall|j: int| 0 <= j < i ==> self.free@[j] != slot,
            decreases self.free@.len() - i,
        {
            if self.free[i] == slot {
                return false;
            }
            i = i + 1;
        }
        self.free.push(slot);
        proof {
            let f = old(self).free@;
            let f2 = self.free@;
            assert(!f.contains(slot));
            assert(f2.no_duplicates()) by {
                assert forall|a: int, b: int|
                    0 <= a < f2.len() && 0 <= b < f2.len() && a != b implies f2[a] != f2[b] by {
                    if a < f.len() && b < f.len() {
                        assert(f[a] != f[b]);
                    } else if a < f.len() {
                        assert(f.contains(f[a]));
                    } else {
                        assert(f.contains(f[b]));
                    }
                }
            }
            assert forall|a: int| 0 <= a < f2.len() implies #[trigger] f2[a] < self.slots@.len() by {
                if a < f.len() {
                    assert(f[a] < self.slots@.len());
                }
            }
            let c = self.chain@;
            assert forall|a: int| 0 <= a < c.len() implies !f2.contains(#[trigger] c[a]) by {
                assert(!f.contains(c[a]));
                assert(c[a] != slot) by {
                    assert(c.contains(c[a]));
                }
                if f2.contains(c[a]) {
                    let b = choose|b: int| 0 <= b < f2.len() && f2[b] == c[a];
                    if b < f.len() {
                        assert(f.contains(f[b]));
                    }
                }
            }
        }
        true
    }
}

} // verus!
