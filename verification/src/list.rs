//! The recency tracker: a doubly-linked list of values held in an arena of
//! slots addressed by stable indices.
//!
//! A handle returned by [`List::push_front`] is the index of the slot that
//! holds the node, so detaching or promoting a known node never searches the
//! chain. A ghost sequence records the handles in front-to-back order; the
//! well-formedness predicate ties the slots' `prev`/`next` links, the two end
//! pointers and the free list to that order.

use crate::seq_facts::lemma_remove_keeps_no_duplicates;
use vstd::pervasive::arbitrary;
use vstd::prelude::*;

verus! {

/// One slot of the arena: either vacant or a node of the chain.
///
/// A node's `prev` and `next` are handles of the neighbouring nodes, or
/// nothing at an end of the chain.
#[derive(Clone, Copy)]
pub enum ListNode<T> {
    Vacant,
    Link { value: T, prev: Option<usize>, next: Option<usize> },
}

/// A doubly-linked list over an arena of slots.
///
/// `head` is the handle of the front (most recent) node, `tail` of the back
/// (least recent) node. `free` lists the vacant slots available for reuse.
/// `order` is the ghost sequence of the handles on the chain, front to back.
pub struct List<T> {
    nodes: Vec<ListNode<T>>,
    head: Option<usize>,
    tail: Option<usize>,
    free: Vec<usize>,
    order: Ghost<Seq<usize>>,
}

impl<T> List<T> {
    /// The handles of the nodes on the chain, front to back.
    pub closed spec fn handles(self) -> Seq<usize> {
        self.order@
    }

    spec fn slot(self, h: usize) -> ListNode<T> {
        self.nodes@[h as int]
    }

    /// `h` addresses a slot of the arena that holds a node.
    pub closed spec fn slot_filled(self, h: usize) -> bool {
        h < self.nodes@.len() && self.slot(h) is Link
    }

    /// The value held by the node addressed by `h`.
    pub closed spec fn handle_value(self, h: usize) -> T
        recommends
            self.slot_filled(h),
    {
        match self.slot(h) {
            ListNode::Link { value, .. } => value,
            ListNode::Vacant => arbitrary(),
        }
    }

    spec fn prev_of(self, h: usize) -> Option<usize> {
        match self.slot(h) {
            ListNode::Link { prev, .. } => prev,
            ListNode::Vacant => None,
        }
    }

    spec fn next_of(self, h: usize) -> Option<usize> {
        match self.slot(h) {
            ListNode::Link { next, .. } => next,
            ListNode::Vacant => None,
        }
    }

    /// `h` is the handle of a node currently on the chain.
    pub open spec fn valid_handle(self, h: usize) -> bool {
        self.handles().contains(h)
    }

    /// `h` is the handle of a node that was unlinked from the chain but still
    /// holds its value, so it can be re-inserted with `push_node_front`.
    pub closed spec fn detached(self, h: usize) -> bool {
        self.slot_filled(h) && !self.handles().contains(h)
    }

    /// The values on the chain, front to back.
    pub open spec fn values(self) -> Seq<T> {
        Seq::new(self.handles().len(), |i: int| self.handle_value(self.handles()[i]))
    }

    /// The slots, the links, the end pointers and the free list agree with
    /// the ghost order.
    pub closed spec fn wf(self) -> bool {
        let ord = self.order@;
        &&& forall|i: int| 0 <= i < ord.len() ==> #[trigger] self.slot_filled(ord[i])
        &&& ord.no_duplicates()
        &&& (if ord.len() == 0 {
            self.head is None && self.tail is None
        } else {
            self.head == Some(ord[0]) && self.tail == Some(ord[ord.len() - 1])
        })
        &&& forall|i: int|
            0 <= i < ord.len() ==> #[trigger] self.prev_of(ord[i]) == (if i == 0 {
                None::<usize>
            } else {
                Some(ord[i - 1])
            })
        &&& forall|i: int|
            0 <= i < ord.len() ==> #[trigger] self.next_of(ord[i]) == (if i == ord.len() - 1 {
                None::<usize>
            } else {
                Some(ord[i + 1])
            })
        &&& forall|i: int|
            0 <= i < self.free@.len() ==> (#[trigger] self.free@[i]) < self.nodes@.len()
                && self.nodes@[self.free@[i] as int] is Vacant
        &&& self.free@.no_duplicates()
    }
}

impl<T: Copy> List<T> {
    /// Creates an empty list.
    pub fn new() -> (r: Self)
        ensures
            r.wf(),
            r.handles() == Seq::<usize>::empty(),
            r.values() == Seq::<T>::empty(),
    {
        let r = List {
            nodes: Vec::new(),
            head: None,
            tail: None,
            free: Vec::new(),
            order: Ghost(Seq::empty()),
        };
        proof {
            assert(r.values() =~= Seq::<T>::empty());
        }
        r
    }

    /// Rewrites the `prev` link of the node in slot `i`, leaving its value
    /// and `next` link as they are.
    fn set_prev(&mut self, i: usize, p: Option<usize>)
        requires
            old(self).slot_filled(i),
        ensures
            final(self).nodes@ == old(self).nodes@.update(
                i as int,
                (ListNode::Link {
                    value: old(self).handle_value(i),
                    prev: p,
                    next: old(self).next_of(i),
                }),
            ),
            final(self).head == old(self).head,
            final(self).tail == old(self).tail,
            final(self).free == old(self).free,
            final(self).order == old(self).order,
    {
        let node = self.nodes[i];
        match node {
            ListNode::Link { value, prev: _, next } => {
                self.nodes[i] = ListNode::Link { value, prev: p, next };
            },
            ListNode::Vacant => {
                proof {
                    assert(false);
                }
            },
        }
    }

    /// Rewrites the `next` link of the node in slot `i`, leaving its value
    /// and `prev` link as they are.
    fn set_next(&mut self, i: usize, n: Option<usize>)
        requires
            old(self).slot_filled(i),
        ensures
            final(self).nodes@ == old(self).nodes@.update(
                i as int,
                (ListNode::Link {
                    value: old(self).handle_value(i),
                    prev: old(self).prev_of(i),
                    next: n,
                }),
            ),
            final(self).head == old(self).head,
            final(self).tail == old(self).tail,
            final(self).free == old(self).free,
            final(self).order == old(self).order,
    {
        let node = self.nodes[i];
        match node {
            ListNode::Link { value, prev, next: _ } => {
                self.nodes[i] = ListNode::Link { value, prev, next: n };
            },
            ListNode::Vacant => {
                proof {
                    assert(false);
                }
            },
        }
    }

    /// Inserts a new node holding `value` at the front and returns its
    /// handle. The handle is fresh: it addressed no node before the call.
    pub fn push_front(&mut self, value: T) -> (h: usize)
        requires
            old(self).wf(),
        ensures
            final(self).wf(),
            !old(self).valid_handle(h),
            !old(self).detached(h),
            final(self).handles() == seq![h] + old(self).handles(),
            final(self).values() == seq![value] + old(self).values(),
            final(self).handle_value(h) == value,
            forall|x: usize|
                old(self).valid_handle(x) ==> final(self).handle_value(x) == old(self).handle_value(x),
    {
        let old_head = self.head;
        let idx: usize;
        match self.free.pop() {
            Some(i) => {
                idx = i;
                self.nodes[i] = ListNode::Link { value, prev: None, next: old_head };
            },
            None => {
                idx = self.nodes.len();
                self.nodes.push(ListNode::Link { value, prev: None, next: old_head });
            },
        }
        proof {
            assert(!old(self).handles().contains(idx)) by {
                if old(self).handles().contains(idx) {
                    let j = choose|j: int|
                        0 <= j < old(self).handles().len() && old(self).handles()[j] == idx;
                    assert(old(self).slot_filled(old(self).handles()[j]));
                }
            }
        }
        match old_head {
            Some(f) => {
                proof {
                    assert(old(self).slot_filled(old(self).handles()[0]));
                    assert(self.slot_filled(f));
                }
                self.set_prev(f, Some(idx));
            },
            None => {
                self.tail = Some(idx);
            },
        }
        self.head = Some(idx);
        proof {
            self.order@ = seq![idx] + self.order@;
        }
        proof {
            let s0 = *old(self);
            let ord0 = s0.handles();
            let ord1 = self.handles();
            assert(ord1 == seq![idx] + ord0);
            assert forall|j: int| 0 <= j < ord0.len() implies {
                &&& #[trigger] self.slot_filled(ord0[j])
                &&& self.handle_value(ord0[j]) == s0.handle_value(ord0[j])
                &&& self.next_of(ord0[j]) == s0.next_of(ord0[j])
                &&& self.prev_of(ord0[j]) == (if j == 0 {
                    Some(idx)
                } else {
                    s0.prev_of(ord0[j])
                })
            } by {
                assert(s0.slot_filled(ord0[j]));
                assert(ord0[j] != idx);
                if j != 0 {
                    assert(ord0[j] != ord0[0]);
                }
            }
            assert forall|i: int| 0 <= i < ord1.len() implies #[trigger] self.slot_filled(
                ord1[i],
            ) by {
                if i > 0 {
                    assert(ord1[i] == ord0[i - 1]);
                    assert(self.slot_filled(ord0[i - 1]));
                }
            }
            assert forall|i: int| 0 <= i < ord1.len() implies #[trigger] self.prev_of(ord1[i])
                == (if i == 0 {
                None::<usize>
            } else {
                Some(ord1[i - 1])
            }) by {
                if i > 0 {
                    assert(ord1[i] == ord0[i - 1]);
                    assert(self.slot_filled(ord0[i - 1]));
                    assert(s0.prev_of(ord0[i - 1]) == (if i - 1 == 0 {
                        None::<usize>
                    } else {
                        Some(ord0[i - 2])
                    }));
                }
            }
            assert forall|i: int| 0 <= i < ord1.len() implies #[trigger] self.next_of(ord1[i])
                == (if i == ord1.len() - 1 {
                None::<usize>
            } else {
                Some(ord1[i + 1])
            }) by {
                if i == 0 {
                    assert(self.next_of(idx) == s0.head);
                } else {
                    assert(ord1[i] == ord0[i - 1]);
                    assert(self.slot_filled(ord0[i - 1]));
                    assert(s0.next_of(ord0[i - 1]) == (if i - 1 == ord0.len() - 1 {
                        None::<usize>
                    } else {
                        Some(ord0[i])
                    }));
                }
            }
            assert(ord1.no_duplicates());
            assert forall|i: int| 0 <= i < self.free@.len() implies (#[trigger] self.free@[i])
                < self.nodes@.len() && self.nodes@[self.free@[i] as int] is Vacant by {
                assert(self.free@[i] == s0.free@[i]);
                assert(s0.free@[i] < s0.nodes@.len());
                assert(s0.free@[i] != idx);
                if s0.head is Some {
                    assert(s0.slot_filled(ord0[0]));
                    assert(s0.free@[i] != ord0[0]);
                }
            }
            assert(self.wf());
            assert forall|x: usize| s0.valid_handle(x) implies self.handle_value(x)
                == s0.handle_value(x) by {
                let j = choose|j: int| 0 <= j < ord0.len() && ord0[j] == x;
                assert(self.slot_filled(ord0[j]));
            }
            assert forall|i: int| 0 <= i < ord1.len() implies self.values()[i] == (seq![value]
                + s0.values())[i] by {
                if i > 0 {
                    assert(ord1[i] == ord0[i - 1]);
                    assert(self.slot_filled(ord0[i - 1]));
                }
            }
            assert(self.values() =~= seq![value] + s0.values());
        }
        idx
    }

    /// Re-inserts the detached node addressed by `node` at the front. The
    /// node keeps the value it held when it was unlinked.
    pub fn push_node_front(&mut self, node: usize)
        requires
            old(self).wf(),
            old(self).detached(node),
        ensures
            final(self).wf(),
            final(self).handles() == seq![node] + old(self).handles(),
            final(self).values() == seq![old(self).handle_value(node)] + old(self).values(),
            final(self).handle_value(node) == old(self).handle_value(node),
            forall|x: usize|
                old(self).valid_handle(x) ==> final(self).handle_value(x) == old(self).handle_value(x),
    {
        let old_head = self.head;
        self.set_prev(node, None);
        self.set_next(node, old_head);
        match old_head {
            Some(f) => {
                proof {
                    assert(old(self).slot_filled(old(self).handles()[0]));
                    assert(old(self).handles()[0] != node);
                    assert(self.slot_filled(f));
                }
                self.set_prev(f, Some(node));
            },
            None => {
                self.tail = Some(node);
            },
        }
        self.head = Some(node);
        proof {
            self.order@ = seq![node] + self.order@;
        }
        proof {
            let s0 = *old(self);
            let ord0 = s0.handles();
            let ord1 = self.handles();
            assert(ord1 == seq![node] + ord0);
            assert forall|j: int| 0 <= j < ord0.len() implies {
                &&& #[trigger] self.slot_filled(ord0[j])
                &&& self.handle_value(ord0[j]) == s0.handle_value(ord0[j])
                &&& self.next_of(ord0[j]) == s0.next_of(ord0[j])
                &&& self.prev_of(ord0[j]) == (if j == 0 {
                    Some(node)
                } else {
                    s0.prev_of(ord0[j])
                })
            } by {
                assert(s0.slot_filled(ord0[j]));
                assert(ord0[j] != node);
                if j != 0 {
                    assert(ord0[j] != ord0[0]);
                }
            }
            assert forall|i: int| 0 <= i < ord1.len() implies #[trigger] self.slot_filled(
                ord1[i],
            ) by {
                if i > 0 {
                    assert(ord1[i] == ord0[i - 1]);
                    assert(self.slot_filled(ord0[i - 1]));
                }
            }
            assert forall|i: int| 0 <= i < ord1.len() implies #[trigger] self.prev_of(ord1[i])
                == (if i == 0 {
                None::<usize>
            } else {
                Some(ord1[i - 1])
            }) by {
                if i > 0 {
                    assert(ord1[i] == ord0[i - 1]);
                    assert(self.slot_filled(ord0[i - 1]));
                    assert(s0.prev_of(ord0[i - 1]) == (if i - 1 == 0 {
                        None::<usize>
                    } else {
                        Some(ord0[i - 2])
                    }));
                }
            }
            assert forall|i: int| 0 <= i < ord1.len() implies #[trigger] self.next_of(ord1[i])
                == (if i == ord1.len() - 1 {
                None::<usize>
            } else {
                Some(ord1[i + 1])
            }) by {
                if i == 0 {
                    assert(self.next_of(node) == s0.head);
                } else {
                    assert(ord1[i] == ord0[i - 1]);
                    assert(self.slot_filled(ord0[i - 1]));
                    assert(s0.next_of(ord0[i - 1]) == (if i - 1 == ord0.len() - 1 {
                        None::<usize>
                    } else {
                        Some(ord0[i])
                    }));
                }
            }
            assert(ord1.no_duplicates());
            assert forall|i: int| 0 <= i < self.free@.len() implies (#[trigger] self.free@[i])
                < self.nodes@.len() && self.nodes@[self.free@[i] as int] is Vacant by {
                assert(self.free@[i] == s0.free@[i]);
                assert(s0.free@[i] != node);
                if s0.head is Some {
                    assert(s0.slot_filled(ord0[0]));
                    assert(s0.free@[i] != ord0[0]);
                }
            }
            assert(self.wf());
            assert forall|x: usize| s0.valid_handle(x) implies self.handle_value(x)
                == s0.handle_value(x) by {
                let j = choose|j: int| 0 <= j < ord0.len() && ord0[j] == x;
                assert(self.slot_filled(ord0[j]));
            }
            assert forall|i: int| 0 <= i < ord1.len() implies self.values()[i] == (seq![
                s0.handle_value(node),
            ] + s0.values())[i] by {
                if i > 0 {
                    assert(ord1[i] == ord0[i - 1]);
                    assert(self.slot_filled(ord0[i - 1]));
                }
            }
            assert(self.values() =~= seq![s0.handle_value(node)] + s0.values());
        }
    }

    /// Unlinks the node addressed by `node` from the chain, patching its
    /// neighbours' links. The node becomes detached: it keeps its value and
    /// may be re-inserted with `push_node_front`.
    pub fn remove_node(&mut self, node: usize)
        requires
            old(self).wf(),
            old(self).valid_handle(node),
        ensures
            final(self).wf(),
            final(self).detached(node),
            final(self).handle_value(node) == old(self).handle_value(node),
            0 <= old(self).handles().index_of(node) < old(self).handles().len(),
            old(self).handles()[old(self).handles().index_of(node)] == node,
            final(self).handles() == old(self).handles().remove(
                old(self).handles().index_of(node),
            ),
            final(self).values() == old(self).values().remove(old(self).handles().index_of(node)),
            forall|x: usize|
                old(self).valid_handle(x) && x != node ==> final(self).valid_handle(x) && final(self).handle_value(x) == old(self).handle_value(x),
    {
        let ghost s0 = *old(self);
        let ghost ord0 = s0.handles();
        let ghost i = ord0.index_of(node);
        proof {
            assert(exists|j: int| 0 <= j < ord0.len() && ord0[j] == node);
            assert(0 <= i < ord0.len() && ord0[i] == node);
            assert(s0.slot_filled(ord0[i]));
            assert(s0.prev_of(ord0[i]) == (if i == 0 {
                None::<usize>
            } else {
                Some(ord0[i - 1])
            }));
            assert(s0.next_of(ord0[i]) == (if i == ord0.len() - 1 {
                None::<usize>
            } else {
                Some(ord0[i + 1])
            }));
        }
        let slot_read = self.nodes[node];
        let p: Option<usize>;
        let nx: Option<usize>;
        match slot_read {
            ListNode::Link { value: _, prev, next } => {
                p = prev;
                nx = next;
            },
            ListNode::Vacant => {
                proof {
                    assert(false);
                }
                p = None;
                nx = None;
            },
        }
        match p {
            Some(pi) => {
                proof {
                    assert(pi == ord0[i - 1]);
                    assert(s0.slot_filled(ord0[i - 1]));
                }
                self.set_next(pi, nx);
            },
            None => {
                self.head = nx;
            },
        }
        match nx {
            Some(ni) => {
                proof {
                    assert(ni == ord0[i + 1]);
                    assert(s0.slot_filled(ord0[i + 1]));
                    if i > 0 {
                        assert(ord0[i + 1] != ord0[i - 1]);
                    }
                    assert(self.slot_filled(ni));
                }
                self.set_prev(ni, p);
            },
            None => {
                self.tail = p;
            },
        }
        proof {
            assert(self.slot_filled(node));
        }
        self.set_prev(node, None);
        self.set_next(node, None);
        proof {
            self.order@ = self.order@.remove(i);
        }
        proof {
            let ord1 = self.handles();
            assert(ord1 == ord0.remove(i));
            ord0.remove_ensures(i);
            s0.values().remove_ensures(i);
            lemma_remove_keeps_no_duplicates(ord0, i);
            assert forall|j: int| 0 <= j < ord0.len() && j != i implies {
                &&& #[trigger] self.slot_filled(ord0[j])
                &&& self.handle_value(ord0[j]) == s0.handle_value(ord0[j])
                &&& self.prev_of(ord0[j]) == (if j == i + 1 {
                    s0.prev_of(ord0[i])
                } else {
                    s0.prev_of(ord0[j])
                })
                &&& self.next_of(ord0[j]) == (if j == i - 1 {
                    s0.next_of(ord0[i])
                } else {
                    s0.next_of(ord0[j])
                })
            } by {
                assert(s0.slot_filled(ord0[j]));
                assert(ord0[j] != node);
                if j != i + 1 && i + 1 < ord0.len() {
                    assert(ord0[j] != ord0[i + 1]);
                }
                if j != i - 1 && i - 1 >= 0 {
                    assert(ord0[j] != ord0[i - 1]);
                }
            }
            assert forall|k: int| 0 <= k < ord1.len() implies #[trigger] self.slot_filled(
                ord1[k],
            ) by {
                if k < i {
                    assert(ord1[k] == ord0[k]);
                    assert(self.slot_filled(ord0[k]));
                } else {
                    assert(ord1[k] == ord0[k + 1]);
                    assert(self.slot_filled(ord0[k + 1]));
                }
            }
            assert forall|k: int| 0 <= k < ord1.len() implies #[trigger] self.prev_of(ord1[k])
                == (if k == 0 {
                None::<usize>
            } else {
                Some(ord1[k - 1])
            }) by {
                if k < i {
                    assert(ord1[k] == ord0[k]);
                    assert(self.slot_filled(ord0[k]));
                    assert(s0.prev_of(ord0[k]) == (if k == 0 {
                        None::<usize>
                    } else {
                        Some(ord0[k - 1])
                    }));
                    if k > 0 {
                        assert(ord1[k - 1] == ord0[k - 1]);
                    }
                } else {
                    assert(ord1[k] == ord0[k + 1]);
                    assert(self.slot_filled(ord0[k + 1]));
                    assert(s0.prev_of(ord0[k + 1]) == Some(ord0[k]));
                    if k == i {
                        if k > 0 {
                            assert(ord1[k - 1] == ord0[k - 1]);
                        }
                    } else {
                        assert(ord1[k - 1] == ord0[k]);
                    }
                }
            }
            assert forall|k: int| 0 <= k < ord1.len() implies #[trigger] self.next_of(ord1[k])
                == (if k == ord1.len() - 1 {
                None::<usize>
            } else {
                Some(ord1[k + 1])
            }) by {
                if k < i - 1 {
                    assert(ord1[k] == ord0[k]);
                    assert(self.slot_filled(ord0[k]));
                    assert(s0.next_of(ord0[k]) == Some(ord0[k + 1]));
                    assert(ord1[k + 1] == ord0[k + 1]);
                } else if k == i - 1 {
                    assert(ord1[k] == ord0[k]);
                    assert(self.slot_filled(ord0[k]));
                    assert(self.next_of(ord0[i - 1]) == s0.next_of(ord0[i]));
                    if k < ord1.len() - 1 {
                        assert(ord1[k + 1] == ord0[i + 1]);
                    }
                } else {
                    assert(ord1[k] == ord0[k + 1]);
                    assert(self.slot_filled(ord0[k + 1]));
                    assert(s0.next_of(ord0[k + 1]) == (if k + 1 == ord0.len() - 1 {
                        None::<usize>
                    } else {
                        Some(ord0[k + 2])
                    }));
                    if k < ord1.len() - 1 {
                        assert(ord1[k + 1] == ord0[k + 2]);
                    }
                }
            }
            assert forall|k: int| 0 <= k < self.free@.len() implies (#[trigger] self.free@[k])
                < self.nodes@.len() && self.nodes@[self.free@[k] as int] is Vacant by {
                assert(s0.free@[k] == self.free@[k]);
                assert(s0.slot_filled(ord0[i]));
                if i > 0 {
                    assert(s0.slot_filled(ord0[i - 1]));
                }
                if i + 1 < ord0.len() {
                    assert(s0.slot_filled(ord0[i + 1]));
                }
            }
            if ord1.len() > 0 {
                assert(ord1[0] == (if i == 0 {
                    ord0[1]
                } else {
                    ord0[0]
                }));
                assert(ord1[ord1.len() - 1] == (if i == ord0.len() - 1 {
                    ord0[ord0.len() - 2]
                } else {
                    ord0[ord0.len() - 1]
                }));
            }
            assert(self.wf());
            assert(!ord1.contains(node));
            assert forall|x: usize| s0.valid_handle(x) && x != node implies self.valid_handle(x)
                && self.handle_value(x) == s0.handle_value(x) by {
                let j = choose|j: int| 0 <= j < ord0.len() && ord0[j] == x;
                assert(j != i);
                assert(self.slot_filled(ord0[j]));
                if j < i {
                    assert(ord1[j] == ord0[j]);
                } else {
                    assert(ord1[j - 1] == ord0[j]);
                }
            }
            assert forall|k: int| 0 <= k < ord1.len() implies self.values()[k]
                == s0.values().remove(i)[k] by {
                if k < i {
                    assert(ord1[k] == ord0[k]);
                    assert(self.slot_filled(ord0[k]));
                } else {
                    assert(ord1[k] == ord0[k + 1]);
                    assert(self.slot_filled(ord0[k + 1]));
                }
            }
            assert(self.values() =~= s0.values().remove(i));
        }
    }

    /// Returns the value at the back (the least recent node) without
    /// changing the chain, or nothing when the chain is empty.
    pub fn back(&self) -> (r: Option<T>)
        requires
            self.wf(),
        ensures
            r == (if self.values().len() == 0 {
                None::<T>
            } else {
                Some(self.values().last())
            }),
    {
        match self.tail {
            None => None,
            Some(t) => {
                proof {
                    assert(self.slot_filled(self.handles()[self.handles().len() - 1]));
                }
                let slot_read = self.nodes[t];
                match slot_read {
                    ListNode::Link { value, prev: _, next: _ } => Some(value),
                    ListNode::Vacant => {
                        proof {
                            assert(false);
                        }
                        None
                    },
                }
            },
        }
    }

    /// Removes the back (least recent) node and vacates its slot; its handle
    /// must not be used again. Does nothing on an empty chain.
    pub fn pop_back(&mut self)
        requires
            old(self).wf(),
        ensures
            final(self).wf(),
            old(self).handles().len() == 0 ==> *final(self) == *old(self),
            old(self).handles().len() > 0 ==> {
                &&& final(self).handles() == old(self).handles().drop_last()
                &&& final(self).values() == old(self).values().drop_last()
                &&& !final(self).valid_handle(old(self).handles().last())
                &&& !final(self).detached(old(self).handles().last())
                &&& forall|x: usize|
                    final(self).valid_handle(x) ==> final(self).handle_value(x) == old(self).handle_value(x)
            },
    {
        let ghost s0 = *old(self);
        let ghost ord0 = s0.handles();
        let t_opt = self.tail;
        match t_opt {
            None => {},
            Some(t) => {
                let ghost last: int = ord0.len() - 1;
                proof {
                    assert(t == ord0[last]);
                    assert(s0.slot_filled(ord0[last]));
                    assert(s0.prev_of(ord0[last]) == (if last == 0 {
                        None::<usize>
                    } else {
                        Some(ord0[last - 1])
                    }));
                }
                let slot_read = self.nodes[t];
                let p: Option<usize>;
                match slot_read {
                    ListNode::Link { value: _, prev, next: _ } => {
                        p = prev;
                    },
                    ListNode::Vacant => {
                        proof {
                            assert(false);
                        }
                        p = None;
                    },
                }
                match p {
                    Some(pi) => {
                        proof {
                            assert(pi == ord0[last - 1]);
                            assert(s0.slot_filled(ord0[last - 1]));
                        }
                        self.set_next(pi, None);
                    },
                    None => {
                        self.head = None;
                    },
                }
                self.tail = p;
                self.nodes[t] = ListNode::Vacant;
                self.free.push(t);
                proof {
                    self.order@ = self.order@.drop_last();
                }
                proof {
                    let ord1 = self.handles();
                    assert(ord1 == ord0.drop_last());
                    assert forall|j: int| 0 <= j < last implies {
                        &&& #[trigger] self.slot_filled(ord0[j])
                        &&& self.handle_value(ord0[j]) == s0.handle_value(ord0[j])
                        &&& self.prev_of(ord0[j]) == s0.prev_of(ord0[j])
                        &&& self.next_of(ord0[j]) == (if j == last - 1 {
                            None::<usize>
                        } else {
                            s0.next_of(ord0[j])
                        })
                    } by {
                        assert(s0.slot_filled(ord0[j]));
                        assert(ord0[j] != ord0[last]);
                        if j != last - 1 && last - 1 >= 0 {
                            assert(ord0[j] != ord0[last - 1]);
                        }
                    }
                    assert forall|k: int| 0 <= k < ord1.len() implies #[trigger] self.slot_filled(
                        ord1[k],
                    ) by {
                        assert(ord1[k] == ord0[k]);
                        assert(self.slot_filled(ord0[k]));
                    }
                    assert forall|k: int| 0 <= k < ord1.len() implies #[trigger] self.prev_of(
                        ord1[k],
                    ) == (if k == 0 {
                        None::<usize>
                    } else {
                        Some(ord1[k - 1])
                    }) by {
                        assert(ord1[k] == ord0[k]);
                        assert(self.slot_filled(ord0[k]));
                        assert(s0.prev_of(ord0[k]) == (if k == 0 {
                            None::<usize>
                        } else {
                            Some(ord0[k - 1])
                        }));
                        if k > 0 {
                            assert(ord1[k - 1] == ord0[k - 1]);
                        }
                    }
                    assert forall|k: int| 0 <= k < ord1.len() implies #[trigger] self.next_of(
                        ord1[k],
                    ) == (if k == ord1.len() - 1 {
                        None::<usize>
                    } else {
                        Some(ord1[k + 1])
                    }) by {
                        assert(ord1[k] == ord0[k]);
                        assert(self.slot_filled(ord0[k]));
                        assert(s0.next_of(ord0[k]) == (if k == ord0.len() - 1 {
                            None::<usize>
                        } else {
                            Some(ord0[k + 1])
                        }));
                        if k < ord1.len() - 1 {
                            assert(ord1[k + 1] == ord0[k + 1]);
                        }
                    }
                    assert forall|k: int| 0 <= k < self.free@.len() implies (
                    #[trigger] self.free@[k]) < self.nodes@.len()
                        && self.nodes@[self.free@[k] as int] is Vacant by {
                        if k < s0.free@.len() {
                            assert(self.free@[k] == s0.free@[k]);
                            assert(s0.free@[k] != ord0[last]) by {
                                assert(s0.slot_filled(ord0[last]));
                            }
                            if last > 0 {
                                assert(s0.slot_filled(ord0[last - 1]));
                                assert(s0.free@[k] != ord0[last - 1]);
                            }
                        } else {
                            assert(self.free@[k] == t);
                        }
                    }
                    assert(self.free@.no_duplicates()) by {
                        assert forall|a: int, b: int|
                            0 <= a < self.free@.len() && 0 <= b < self.free@.len() && a
                                != b implies self.free@[a] != self.free@[b] by {
                            if a < s0.free@.len() && b < s0.free@.len() {
                                assert(s0.free@[a] != s0.free@[b]);
                            } else if a < s0.free@.len() {
                                assert(s0.free@[a] != t) by {
                                    assert(s0.slot_filled(ord0[last]));
                                }
                            } else if b < s0.free@.len() {
                                assert(s0.free@[b] != t) by {
                                    assert(s0.slot_filled(ord0[last]));
                                }
                            }
                        }
                    }
                    assert(ord1.no_duplicates());
                    assert(self.wf());
                    assert(!ord1.contains(ord0[last])) by {
                        if ord1.contains(ord0[last]) {
                            let j = choose|j: int| 0 <= j < ord1.len() && ord1[j] == ord0[last];
                            assert(ord0[j] == ord0[last]);
                        }
                    }
                    assert forall|x: usize| self.valid_handle(x) implies self.handle_value(x)
                        == s0.handle_value(x) by {
                        let j = choose|j: int| 0 <= j < ord1.len() && ord1[j] == x;
                        assert(ord1[j] == ord0[j]);
                        assert(self.slot_filled(ord0[j]));
                    }
                    assert forall|k: int| 0 <= k < ord1.len() implies self.values()[k]
                        == s0.values().drop_last()[k] by {
                        assert(ord1[k] == ord0[k]);
                        assert(self.slot_filled(ord0[k]));
                    }
                    assert(self.values() =~= s0.values().drop_last());
                }
            },
        }
    }
}

} // verus!
