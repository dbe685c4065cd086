use vstd::prelude::*;

verus! {

/// A locator: the arena slot that holds an entry of a [`LinkedList`].
pub type Link = usize;

/// One arena slot. A live slot holds a value; a vacant one holds `None`.
struct Node<T> {
    value: Option<T>,
    prev: Option<Link>,
    next: Option<Link>,
}

/// A doubly linked list whose nodes live in an arena of slots and point at
/// each other by slot index. The head is the left end, the tail the right end.
///
/// The abstract value is the sequence of stored values from head to tail;
/// `locs()` gives the slot of each of them, in the same order. A slot stays
/// the locator of its entry until that entry is popped.
pub struct LinkedList<T> {
    slots: Vec<Node<T>>,
    free: Vec<Link>,
    head: Option<Link>,
    tail: Option<Link>,
    order: Ghost<Seq<Link>>,
}

impl<T> View for LinkedList<T> {
    type V = Seq<T>;

    closed spec fn view(&self) -> Seq<T> {
        Seq::new(self.order@.len(), |i: int| self.slots@[self.order@[i] as int].value->0)
    }
}

impl<T> LinkedList<T> {
    /// The locators of the entries, from head to tail.
    pub closed spec fn locs(&self) -> Seq<Link> {
        self.order@
    }

    /// The slot at position `i` of the order is live and linked to its
    /// neighbours in the order.
    closed spec fn linked_at(&self, i: int) -> bool {
        let ord = self.order@;
        let s = ord[i];
        &&& s < self.slots@.len()
        &&& self.slots@[s as int].value is Some
        &&& self.slots@[s as int].prev == if i == 0 {
            None::<Link>
        } else {
            Some(ord[i - 1])
        }
        &&& self.slots@[s as int].next == if i + 1 == ord.len() {
            None::<Link>
        } else {
            Some(ord[i + 1])
        }
    }

    closed spec fn vacant_at(&self, j: int) -> bool {
        let s = self.free@[j];
        &&& s < self.slots@.len()
        &&& self.slots@[s as int].value is None
    }

    /// Well-formedness: the links agree with the order, the ends are right,
    /// and the vacant slots are listed once each.
    pub closed spec fn wf(&self) -> bool {
        let ord = self.order@;
        &&& ord.no_duplicates()
        &&& forall|i: int| 0 <= i < ord.len() ==> #[trigger] self.linked_at(i)
        &&& self.head == if ord.len() == 0 {
            None::<Link>
        } else {
            Some(ord[0])
        }
        &&& self.tail == if ord.len() == 0 {
            None::<Link>
        } else {
            Some(ord.last())
        }
        &&& self.free@.no_duplicates()
        &&& forall|j: int| 0 <= j < self.free@.len() ==> #[trigger] self.vacant_at(j)
        &&& self.free@.len() + ord.len() == self.slots@.len()
    }

    /// What a well-formed list tells its users about locators.
    pub proof fn lemma_locs(&self)
        requires
            self.wf(),
        ensures
            self.locs().no_duplicates(),
            self.locs().len() == self@.len(),
    {
    }

    /// An empty list.
    pub fn new() -> (r: LinkedList<T>)
        ensures
            r.wf(),
            r@ == Seq::<T>::empty(),
            r.locs() == Seq::<Link>::empty(),
    {
        let r = LinkedList { slots: Vec::new(), free: Vec::new(), head: None, tail: None, order: Ghost(Seq::empty()) };
        assert(r@ =~= Seq::<T>::empty());
        r
    }

    /// Inserts `value` at the head and returns the locator of its slot.
    pub fn push_left(&mut self, value: T) -> (link: Link)
        requires
            old(self).wf(),
            old(self)@.len() < usize::MAX,
        ensures
            final(self).wf(),
            final(self)@ == seq![value] + old(self)@,
            final(self).locs() == seq![link] + old(self).locs(),
            !old(self).locs().contains(link),
    {
        let ghost old_self = *self;
        let node = Node { value: Some(value), prev: None, next: self.head };
        let slot: Link;
        match self.free.pop() {
            Some(s) => {
                assert(old_self.vacant_at(old_self.free@.len() - 1));
                slot = s;
                self.slots[s] = node;
            },
            None => {
                slot = self.slots.len();
                self.slots.push(node);
            },
        }
        assert(!old_self.order@.contains(slot)) by {
            if old_self.order@.contains(slot) {
                let i = old_self.order@.index_of(slot);
                assert(old_self.linked_at(i));
            }
        }
        match self.head {
            Some(h) => {
                assert(old_self.linked_at(0));
                self.slots[h].prev = Some(slot);
            },
            None => {
                self.tail = Some(slot);
            },
        }
        self.head = Some(slot);
        self.order = Ghost(seq![slot] + old_self.order@);
        proof {
            let ord = self.order@;
            assert forall|i: int| 0 <= i < ord.len() implies #[trigger] self.linked_at(i) by {
                if i > 0 {
                    assert(old_self.linked_at(i - 1));
                }
            }
            assert forall|j: int| 0 <= j < self.free@.len() implies #[trigger] self.vacant_at(j) by {
                assert(old_self.vacant_at(j));
            }
            assert(self@ =~= seq![value] + old_self@) by {
                assert forall|i: int| 0 < i < ord.len() implies self@[i] == old_self@[i - 1] by {
                    assert(old_self.linked_at(i - 1));
                }
            }
        }
        slot
    }

    /// Removes the tail entry and returns its value; `None` when the list is
    /// empty. The tail's slot becomes vacant.
    pub fn pop_right(&mut self) -> (r: Option<T>)
        requires
            old(self).wf(),
        ensures
            final(self).wf(),
            old(self)@.len() == 0 ==> r is None && final(self)@ == old(self)@ && final(self).locs()
                == old(self).locs(),
            old(self)@.len() > 0 ==> r == Some(old(self)@.last()) && final(self)@ == old(
                self,
            )@.drop_last() && final(self).locs() == old(self).locs().drop_last(),
    {
        let ghost old_self = *self;
        match self.tail {
            None => None,
            Some(t) => {
                let ghost last = old_self.order@.len() - 1;
                assert(old_self.linked_at(last));
                let value = self.slots[t].value.take();
                let prev = self.slots[t].prev;
                match prev {
                    Some(p) => {
                        assert(old_self.linked_at(last - 1));
                        self.slots[p].next = None;
                    },
                    None => {
                        self.head = None;
                    },
                }
                self.tail = prev;
                self.free.push(t);
                self.order = Ghost(old_self.order@.drop_last());
                proof {
                    let ord = self.order@;
                    assert forall|i: int| 0 <= i < ord.len() implies #[trigger] self.linked_at(i) by {
                        assert(old_self.linked_at(i));
                        assert(old_self.order@[i] != t);
                    }
                    assert forall|j: int| 0 <= j < self.free@.len() implies #[trigger] self.vacant_at(j) by {
                        if j < old_self.free@.len() {
                            assert(old_self.vacant_at(j));
                        }
                    }
                    assert(!old_self.free@.contains(t)) by {
                        if old_self.free@.contains(t) {
                            assert(old_self.vacant_at(old_self.free@.index_of(t)));
                        }
                    }
                    assert forall|i: int| 0 <= i < ord.len() implies self@[i] == old_self@[i] by {
                        assert(old_self.linked_at(i));
                        assert(old_self.order@[i] != t);
                        assert(self.slots@[ord[i] as int].value == old_self.slots@[ord[i] as int].value);
                    }
                    assert(self@ =~= old_self@.drop_last());
                }
                value
            },
        }
    }

    /// Moves the entry at `link` to the head, keeping the order of the others.
    /// The locator stays valid; an entry already at the head stays where it is.
    pub fn move_to_left(&mut self, link: Link)
        requires
            old(self).wf(),
            old(self).locs().contains(link),
        ensures
            final(self).wf(),
            ({
                let i = old(self).locs().index_of(link);
                &&& final(self)@ == seq![old(self)@[i]] + old(self)@.remove(i)
                &&& final(self).locs() == seq![link] + old(self).locs().remove(i)
            }),
    {
        let ghost old_self = *self;
        let ghost ord = old_self.order@;
        let ghost i = ord.index_of(link);
        assert(old_self.linked_at(i));
        let prev = self.slots[link].prev;
        let next = self.slots[link].next;
        match prev {
            None => {
                assert(ord =~= seq![link] + ord.remove(i));
                assert(self@ =~= seq![old_self@[i]] + old_self@.remove(i));
                return ;
            },
            Some(p) => {
                assert(old_self.linked_at(i - 1));
                self.slots[p].next = next;
            },
        }
        match next {
            Some(n) => {
                assert(old_self.linked_at(i + 1));
                self.slots[n].prev = prev;
            },
            None => {
                self.tail = prev;
            },
        }
        assert(old_self.linked_at(0));
        let h = self.head.unwrap();
        self.slots[link].prev = None;
        self.slots[link].next = Some(h);
        self.slots[h].prev = Some(link);
        self.head = Some(link);
        self.order = Ghost(seq![link] + ord.remove(i));
        proof {
            let nord = self.order@;
            assert forall|k: int| 0 <= k < nord.len() implies #[trigger] self.linked_at(k) by {
                if k > 0 {
                    let j = if k <= i {
                        k - 1
                    } else {
                        k
                    };
                    assert(nord[k] == ord[j]);
                    assert(old_self.linked_at(j));
                    if j > 0 {
                        assert(old_self.linked_at(j - 1));
                    }
                    if j + 1 < ord.len() {
                        assert(old_self.linked_at(j + 1));
                    }
                }
            }
            assert forall|j: int| 0 <= j < self.free@.len() implies #[trigger] self.vacant_at(j) by {
                assert(old_self.vacant_at(j));
            }
            assert forall|k: int| 0 <= k < nord.len() implies self.slots@[nord[k] as int].value
                == old_self.slots@[nord[k] as int].value by {
                let j = if k == 0 {
                    i
                } else if k <= i {
                    k - 1
                } else {
                    k
                };
                assert(nord[k] == ord[j]);
                assert(old_self.linked_at(j));
            }
            assert(self@ =~= seq![old_self@[i]] + old_self@.remove(i));
        }
    }

    /// The value stored at `link`.
    pub fn value(&self, link: Link) -> (r: &T)
        requires
            self.wf(),
            self.locs().contains(link),
        ensures
            *r == self@[self.locs().index_of(link)],
    {
        let ghost i = self.order@.index_of(link);
        assert(self.linked_at(i));
        self.slots[link].value.as_ref().unwrap()
    }
}

} // verus!
