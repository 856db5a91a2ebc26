//! The ordering structure: a doubly-linked sequence stored in an arena.
//!
//! Elements live in stable slots of a vector; the links between them are slot
//! indices, so removal and re-insertion at the tail are O(1) given a handle
//! (the element's slot index).  A freed slot goes on a free list and is reused
//! by a later push.
use vstd::prelude::*;

use crate::Dup;
use vstd::pervasive::unreached;

verus! {

/// Sentinel slot index meaning "no element".
pub const NIL: usize = usize::MAX;

/// One element of the sequence: the payload plus the links to its
/// predecessor and successor (slot indices, `NIL` at the ends).
pub struct Node<T> {
    pub value: T,
    prev: usize,
    next: usize,
}

/// A doubly-linked sequence of owned elements with O(1) structural
/// operations by handle.
///
/// The view of a queue is the sequence of payload values from front to back.
pub struct Queue<T> {
    nodes: Vec<Option<Node<T>>>,
    head: usize,
    tail: usize,
    free: Vec<usize>,
    order: Ghost<Seq<usize>>,
}

impl<T> View for Queue<T> {
    type V = Seq<T>;

    closed spec fn view(&self) -> Seq<T> {
        Seq::new(self.order@.len(), |k: int| self.nodes@[self.order@[k] as int].unwrap().value)
    }
}

impl<T> Queue<T> {
    /// The handles of the linked elements, front to back.
    pub closed spec fn handles(&self) -> Seq<usize> {
        self.order@
    }

    /// The handle `h` names a slot that holds an element (linked or detached).
    pub closed spec fn live(&self, h: usize) -> bool {
        h < self.nodes@.len() && self.nodes@[h as int] is Some
    }

    /// The handle `h` is part of the linked sequence.
    pub open spec fn linked(&self, h: usize) -> bool {
        self.handles().contains(h)
    }

    /// The handle `h` holds an element that is not linked in.
    pub open spec fn detached(&self, h: usize) -> bool {
        self.live(h) && !self.linked(h)
    }

    /// The payload stored under handle `h`.
    pub closed spec fn value_at(&self, h: usize) -> T
        recommends
            self.live(h),
    {
        self.nodes@[h as int].unwrap().value
    }

    /// The position of handle `h` in the linked sequence.
    pub open spec fn pos_of(&self, h: usize) -> int {
        self.handles().index_of(h)
    }

    spec fn prev_of(&self, h: usize) -> usize {
        self.nodes@[h as int].unwrap().prev
    }

    spec fn next_of(&self, h: usize) -> usize {
        self.nodes@[h as int].unwrap().next
    }

    /// Well-formedness: the ghost order names live, distinct slots; the head,
    /// tail and links trace out exactly that order; free slots are empty.
    pub closed spec fn wf(&self) -> bool {
        let ord = self.order@;
        &&& forall|k: int| 0 <= k < ord.len() ==> self.live(#[trigger] ord[k])
        &&& forall|k1: int, k2: int| 0 <= k1 < k2 < ord.len() ==> ord[k1] != ord[k2]
        &&& (ord.len() == 0 ==> self.head == NIL && self.tail == NIL)
        &&& (ord.len() > 0 ==> self.head == ord[0] && self.tail == ord[ord.len() - 1])
        &&& forall|k: int|
            0 <= k < ord.len() ==> (#[trigger] self.prev_of(ord[k])) == (if k == 0 {
                NIL
            } else {
                ord[k - 1]
            })
        &&& forall|k: int|
            0 <= k < ord.len() ==> (#[trigger] self.next_of(ord[k])) == (if k == ord.len() - 1 {
                NIL
            } else {
                ord[k + 1]
            })
        &&& forall|i: int|
            0 <= i < self.free@.len() ==> #[trigger] self.free@[i] < self.nodes@.len()
                && self.nodes@[self.free@[i] as int] is None
        &&& forall|i1: int, i2: int|
            0 <= i1 < i2 < self.free@.len() ==> self.free@[i1] != self.free@[i2]
    }

    /// A linked handle names a live slot.
    pub proof fn lemma_linked_live(&self, h: usize)
        requires
            self.wf(),
            self.linked(h),
        ensures
            self.live(h),
    {
        let k = self.handles().index_of(h);
        assert(self.handles().contains(h));
        assert(0 <= k < self.handles().len() && self.handles()[k] == h);
        assert(self.live(self.handles()[k]));
    }

    /// No handle appears twice in the linked sequence.
    pub proof fn lemma_handles_distinct(&self)
        requires
            self.wf(),
        ensures
            forall|k1: int, k2: int|
                0 <= k1 < k2 < self.handles().len() ==> self.handles()[k1] != self.handles()[k2],
    {
    }

    /// The view reads, position by position, the values under the handles.
    pub proof fn lemma_view(&self)
        ensures
            self@.len() == self.handles().len(),
            forall|k: int|
                0 <= k < self.handles().len() ==> self@[k] == self.value_at(
                    #[trigger] self.handles()[k],
                ),
    {
    }

    /// Changes that leave every linked slot, the endpoints and the order
    /// untouched, and keep the free list lawful, preserve well-formedness.
    proof fn lemma_links_frame(pre: Self, post: Self)
        requires
            pre.wf(),
            post.order@ == pre.order@,
            post.head == pre.head,
            post.tail == pre.tail,
            forall|k: int|
                0 <= k < pre.order@.len() ==> (#[trigger] pre.order@[k]) < post.nodes@.len()
                    && post.nodes@[pre.order@[k] as int] == pre.nodes@[pre.order@[k] as int],
            forall|i: int|
                0 <= i < post.free@.len() ==> (#[trigger] post.free@[i]) < post.nodes@.len()
                    && post.nodes@[post.free@[i] as int] is None,
            forall|i1: int, i2: int|
                0 <= i1 < i2 < post.free@.len() ==> post.free@[i1] != post.free@[i2],
        ensures
            post.wf(),
            post@ == pre@,
    {
        let ord = pre.order@;
        assert forall|k: int| 0 <= k < ord.len() implies post.live(#[trigger] ord[k]) by {
            assert(pre.live(ord[k]));
            assert(post.nodes@[ord[k] as int] == pre.nodes@[ord[k] as int]);
        }
        assert forall|k: int|
            0 <= k < ord.len() implies (#[trigger] post.prev_of(ord[k])) == (if k == 0 {
            NIL
        } else {
            ord[k - 1]
        }) by {
            assert(pre.live(ord[k]));
            assert(post.nodes@[ord[k] as int] == pre.nodes@[ord[k] as int]);
            assert(pre.prev_of(ord[k]) == (if k == 0 {
                NIL
            } else {
                ord[k - 1]
            }));
        }
        assert forall|k: int|
            0 <= k < ord.len() implies (#[trigger] post.next_of(ord[k])) == (if k == ord.len()
            - 1 {
            NIL
        } else {
            ord[k + 1]
        }) by {
            assert(pre.live(ord[k]));
            assert(post.nodes@[ord[k] as int] == pre.nodes@[ord[k] as int]);
            assert(pre.next_of(ord[k]) == (if k == ord.len() - 1 {
                NIL
            } else {
                ord[k + 1]
            }));
        }
        assert(post@ =~= pre@);
    }

    /// An empty queue.
    pub fn new() -> (q: Self)
        ensures
            q.wf(),
            q.handles() == Seq::<usize>::empty(),
            q@ == Seq::<T>::empty(),
            forall|h: usize| !q.live(h),
    {
        let q = Queue {
            nodes: Vec::new(),
            head: NIL,
            tail: NIL,
            free: Vec::new(),
            order: Ghost(Seq::empty()),
        };
        proof {
            assert(q@ =~= Seq::<T>::empty());
        }
        q
    }

    /// Store a node in a fresh or recycled slot, without linking it.
    fn store_node(&mut self, node: Node<T>) -> (h: usize)
        requires
            old(self).wf(),
        ensures
            final(self).wf(),
            !old(self).live(h),
            final(self).live(h),
            final(self).handles() == old(self).handles(),
            final(self)@ == old(self)@,
            final(self).head == old(self).head,
            final(self).tail == old(self).tail,
            final(self).nodes@[h as int] == Some(node),
            forall|i: usize|
                old(self).live(i) ==> final(self).live(i) && final(self).nodes@[i as int]
                    == old(self).nodes@[i as int],
    {
        let h: usize;
        match self.free.pop() {
            Some(f) => {
                proof {
                    let fr = old(self).free@;
                    assert(fr[fr.len() - 1] == f);
                    assert(old(self).nodes@[f as int] is None);
                }
                h = f;
                self.nodes.set(f, Some(node));
                proof {
                    let fr = old(self).free@;
                    assert forall|k: int|
                        0 <= k < self.order@.len() implies (#[trigger] self.order@[k])
                        < self.nodes@.len() && self.nodes@[self.order@[k] as int] == old(
                        self,
                    ).nodes@[self.order@[k] as int] by {
                        assert(old(self).live(self.order@[k]));
                        assert(self.order@[k] != f);
                    }
                    assert forall|i: int|
                        0 <= i < self.free@.len() implies (#[trigger] self.free@[i])
                        < self.nodes@.len() && self.nodes@[self.free@[i] as int] is None by {
                        assert(self.free@[i] == fr[i]);
                        assert(fr[i] != fr[fr.len() - 1]);
                        assert(old(self).nodes@[fr[i] as int] is None);
                    }
                }
            },
            None => {
                h = self.nodes.len();
                self.nodes.push(Some(node));
                proof {
                    assert forall|k: int|
                        0 <= k < self.order@.len() implies (#[trigger] self.order@[k])
                        < self.nodes@.len() && self.nodes@[self.order@[k] as int] == old(
                        self,
                    ).nodes@[self.order@[k] as int] by {
                        assert(old(self).live(self.order@[k]));
                    }
                    assert forall|i: int|
                        0 <= i < self.free@.len() implies (#[trigger] self.free@[i])
                        < self.nodes@.len() && self.nodes@[self.free@[i] as int] is None by {
                        assert(old(self).free@[i] < old(self).nodes@.len());
                    }
                }
            },
        }
        proof {
            Self::lemma_links_frame(*old(self), *self);
            assert(self@ =~= old(self)@);
        }
        h
    }

    /// Link the detached element under `h` after the current tail.
    fn link_tail(&mut self, h: usize)
        requires
            old(self).wf(),
            old(self).detached(h),
            old(self).prev_of(h) == old(self).tail,
            old(self).next_of(h) == NIL,
        ensures
            final(self).wf(),
            final(self).handles() == old(self).handles().push(h),
            final(self)@ == old(self)@.push(old(self).value_at(h)),
            forall|i: usize|
                old(self).live(i) ==> final(self).live(i) && final(self).value_at(i) == old(
                    self,
                ).value_at(i),
    {
        // an exec read of the length bounds nodes@.len() by usize::MAX,
        // so no live slot index can equal NIL
        let _cap: usize = self.nodes.len();
        let ghost ord0 = self.order@;
        proof {
            assert(self.nodes@.len() <= usize::MAX);
            if ord0.len() > 0 {
                assert(self.live(ord0[ord0.len() - 1]));
                assert(self.tail != NIL);
            }
        }
        if self.tail != NIL {
            let t: usize = self.tail;
            proof {
                assert(ord0.len() > 0);
                assert(self.live(t));
            }
            match &mut self.nodes[t] {
                Some(n) => {
                    n.next = h;
                },
                None => {
                    proof {
                        assert(false);
                    }
                },
            }
        } else {
            self.head = h;
        }
        self.tail = h;
        proof {
            self.order@ = ord0.push(h);
            let ord = self.order@;
            assert forall|k: int|
                0 <= k < ord0.len() implies self.nodes@[#[trigger] ord0[k] as int] == old(
                self,
            ).nodes@[ord0[k] as int] || ord0[k] == old(self).tail by {
                assert(old(self).live(ord0[k]));
            }
            assert forall|k: int| 0 <= k < ord.len() implies self.live(#[trigger] ord[k]) by {
                if k < ord0.len() {
                    assert(ord[k] == ord0[k]);
                    assert(old(self).live(ord0[k]));
                }
            }
            assert forall|k: int|
                0 <= k < ord.len() implies (#[trigger] self.prev_of(ord[k])) == (if k == 0 {
                NIL
            } else {
                ord[k - 1]
            }) by {
                if k < ord0.len() {
                    assert(ord[k] == ord0[k]);
                    assert(old(self).prev_of(ord0[k]) == (if k == 0 {
                        NIL
                    } else {
                        ord0[k - 1]
                    }));
                }
            }
            assert forall|k: int|
                0 <= k < ord.len() implies (#[trigger] self.next_of(ord[k])) == (if k == ord.len()
                - 1 {
                NIL
            } else {
                ord[k + 1]
            }) by {
                if k < ord0.len() {
                    assert(ord[k] == ord0[k]);
                    assert(old(self).next_of(ord0[k]) == (if k == ord0.len() - 1 {
                        NIL
                    } else {
                        ord0[k + 1]
                    }));
                    if k == ord0.len() - 1 {
                        assert(ord[k] == old(self).tail);
                        assert(self.next_of(ord[k]) == h);
                    } else {
                        assert(self.next_of(ord[k]) == old(self).next_of(ord0[k]));
                    }
                }
            }
            assert forall|i: int|
                0 <= i < self.free@.len() implies (#[trigger] self.free@[i]) < self.nodes@.len()
                && self.nodes@[self.free@[i] as int] is None by {
                assert(old(self).free@[i] < old(self).nodes@.len());
                assert(old(self).nodes@[old(self).free@[i] as int] is None);
                if ord0.len() > 0 {
                    assert(old(self).live(old(self).tail));
                    assert(self.free@[i] != old(self).tail);
                }
                assert(self.free@[i] != h);
            }
            assert(self@ =~= old(self)@.push(old(self).value_at(h)));
        }
    }

    /// Append a new element holding `value`; returns its handle.
    pub fn push(&mut self, value: T) -> (h: usize)
        requires
            old(self).wf(),
        ensures
            final(self).wf(),
            !old(self).live(h),
            final(self).linked(h),
            final(self).value_at(h) == value,
            final(self).handles() == old(self).handles().push(h),
            final(self)@ == old(self)@.push(value),
            forall|i: usize|
                old(self).live(i) ==> final(self).live(i) && final(self).value_at(i) == old(
                    self,
                ).value_at(i),
    {
        let node = Node { value, prev: self.tail, next: NIL };
        let h: usize = self.store_node(node);
        proof {
            if old(self).handles().len() > 0 {
                assert(old(self).linked(old(self).tail));
            }
        }
        self.link_tail(h);
        proof {
            assert(self.handles().last() == h);
        }
        h
    }

    /// Re-link a previously detached element at the tail: the designated
    /// idiom for "move to the back", preserving the handle.
    pub fn push_node(&mut self, h: usize)
        requires
            old(self).wf(),
            old(self).detached(h),
        ensures
            final(self).wf(),
            final(self).linked(h),
            final(self).value_at(h) == old(self).value_at(h),
            final(self).handles() == old(self).handles().push(h),
            final(self)@ == old(self)@.push(old(self).value_at(h)),
            forall|i: usize|
                old(self).live(i) ==> final(self).live(i) && final(self).value_at(i) == old(
                    self,
                ).value_at(i),
    {
        let t: usize = self.tail;
        match &mut self.nodes[h] {
            Some(n) => {
                n.prev = t;
                n.next = NIL;
            },
            None => {
                proof {
                    assert(false);
                }
            },
        }
        proof {
            assert forall|k: int|
                0 <= k < self.order@.len() implies (#[trigger] self.order@[k])
                < self.nodes@.len() && self.nodes@[self.order@[k] as int] == old(
                self,
            ).nodes@[self.order@[k] as int] by {
                assert(old(self).live(self.order@[k]));
                assert(self.order@[k] != h);
            }
            assert forall|i: int|
                0 <= i < self.free@.len() implies (#[trigger] self.free@[i]) < self.nodes@.len()
                && self.nodes@[self.free@[i] as int] is None by {
                assert(old(self).nodes@[old(self).free@[i] as int] is None);
                assert(self.free@[i] != h);
            }
            Self::lemma_links_frame(*old(self), *self);
            assert(self@ =~= old(self)@);
            if old(self).handles().len() > 0 {
                assert(old(self).linked(old(self).tail));
            }
        }
        self.link_tail(h);
        proof {
            assert(self.handles().last() == h);
        }
    }

    /// Replace the payload of the detached element under `h`.
    pub fn set_value(&mut self, h: usize, value: T)
        requires
            old(self).wf(),
            old(self).detached(h),
        ensures
            final(self).wf(),
            final(self).detached(h),
            final(self).value_at(h) == value,
            final(self).handles() == old(self).handles(),
            final(self)@ == old(self)@,
            forall|i: usize|
                old(self).live(i) ==> final(self).live(i),
            forall|i: usize|
                old(self).live(i) && i != h ==> final(self).value_at(i) == old(self).value_at(i),
    {
        self.nodes.set(h, Some(Node { value, prev: NIL, next: NIL }));
        proof {
            assert forall|k: int|
                0 <= k < self.order@.len() implies (#[trigger] self.order@[k])
                < self.nodes@.len() && self.nodes@[self.order@[k] as int] == old(
                self,
            ).nodes@[self.order@[k] as int] by {
                assert(old(self).live(self.order@[k]));
                assert(self.order@[k] != h);
            }
            assert forall|i: int|
                0 <= i < self.free@.len() implies (#[trigger] self.free@[i]) < self.nodes@.len()
                && self.nodes@[self.free@[i] as int] is None by {
                assert(old(self).nodes@[old(self).free@[i] as int] is None);
                assert(self.free@[i] != h);
            }
            Self::lemma_links_frame(*old(self), *self);
            assert(self@ =~= old(self)@);
        }
    }

    /// A reference to the payload stored under `h`.
    pub fn get(&self, h: usize) -> (r: &T)
        requires
            self.wf(),
            self.live(h),
        ensures
            *r == self.value_at(h),
    {
        match &self.nodes[h] {
            Some(n) => &n.value,
            None => unreached(),
        }
    }

    /// The payload at the head, if any.
    pub fn peek(&self) -> (r: Option<&T>)
        requires
            self.wf(),
        ensures
            match r {
                Some(v) => self@.len() > 0 && *v == self@[0],
                None => self@.len() == 0,
            },
    {
        // an exec read of the length bounds nodes@.len() by usize::MAX,
        // so no live slot index can equal NIL
        let _cap: usize = self.nodes.len();
        if self.head == NIL {
            proof {
                if self.order@.len() > 0 {
                    assert(self.live(self.order@[0]));
                    assert(false);
                }
            }
            None
        } else {
            match &self.nodes[self.head] {
                Some(n) => Some(&n.value),
                None => unreached(),
            }
        }
    }

    /// Point the `next` link of the element under `i` at `v`.
    fn set_next(&mut self, i: usize, v: usize)
        requires
            old(self).live(i),
        ensures
            final(self).nodes@ == old(self).nodes@.update(
                i as int,
                Some(
                    Node {
                        value: old(self).value_at(i),
                        prev: old(self).prev_of(i),
                        next: v,
                    },
                ),
            ),
            final(self).head == old(self).head,
            final(self).tail == old(self).tail,
            final(self).free@ == old(self).free@,
            final(self).order@ == old(self).order@,
    {
        match &mut self.nodes[i] {
            Some(n) => {
                n.next = v;
            },
            None => {
                proof {
                    assert(false);
                }
            },
        }
    }

    /// Point the `prev` link of the element under `i` at `v`.
    fn set_prev(&mut self, i: usize, v: usize)
        requires
            old(self).live(i),
        ensures
            final(self).nodes@ == old(self).nodes@.update(
                i as int,
                Some(
                    Node {
                        value: old(self).value_at(i),
                        prev: v,
                        next: old(self).next_of(i),
                    },
                ),
            ),
            final(self).head == old(self).head,
            final(self).tail == old(self).tail,
            final(self).free@ == old(self).free@,
            final(self).order@ == old(self).order@,
    {
        match &mut self.nodes[i] {
            Some(n) => {
                n.prev = v;
            },
            None => {
                proof {
                    assert(false);
                }
            },
        }
    }

    /// Unlinking `h` from position `p` yields a well-formed queue again:
    /// the neighbours of `h` were relinked to each other, the endpoints
    /// adjusted, and every other slot left alone.
    #[verifier::rlimit(100)]
    proof fn lemma_unlink_wf(pre: Self, post: Self, h: usize, p: int)
        requires
            pre.wf(),
            0 <= p < pre.order@.len(),
            pre.order@[p] == h,
            post.order@ == pre.order@.remove(p),
            post.free@ == pre.free@,
            post.nodes@.len() == pre.nodes@.len(),
            post.head == (if p == 0 {
                pre.next_of(h)
            } else {
                pre.head
            }),
            post.tail == (if p == pre.order@.len() - 1 {
                pre.prev_of(h)
            } else {
                pre.tail
            }),
            forall|i: int|
                0 <= i < pre.nodes@.len() && i != h && (p == 0 || i != pre.order@[p - 1]) && (p
                    == pre.order@.len() - 1 || i != pre.order@[p + 1])
                    ==> post.nodes@[i] == pre.nodes@[i],
            post.nodes@[h as int] == Some(
                Node { value: pre.value_at(h), prev: NIL, next: NIL },
            ),
            p > 0 ==> post.nodes@[pre.order@[p - 1] as int] == Some(
                Node {
                    value: pre.value_at(pre.order@[p - 1]),
                    prev: pre.prev_of(pre.order@[p - 1]),
                    next: pre.next_of(h),
                },
            ),
            p < pre.order@.len() - 1 ==> post.nodes@[pre.order@[p + 1] as int] == Some(
                Node {
                    value: pre.value_at(pre.order@[p + 1]),
                    prev: pre.prev_of(h),
                    next: pre.next_of(pre.order@[p + 1]),
                },
            ),
        ensures
            post.wf(),
            post.detached(h),
            post.value_at(h) == pre.value_at(h),
            post@ == pre@.remove(p),
            forall|i: usize|
                pre.live(i) ==> post.live(i) && post.value_at(i) == pre.value_at(i),
    {
        let ord0 = pre.order@;
        let ord = post.order@;
        assert forall|i: usize| pre.live(i) implies post.live(i) && post.value_at(i)
            == pre.value_at(i) by {
            if i != h && (p == 0 || i != ord0[p - 1]) && (p == ord0.len() - 1 || i != ord0[p
                + 1]) {
                assert(post.nodes@[i as int] == pre.nodes@[i as int]);
            }
        }
        assert forall|k: int| 0 <= k < ord.len() implies post.live(#[trigger] ord[k]) by {
            if k < p {
                assert(ord[k] == ord0[k]);
            } else {
                assert(ord[k] == ord0[k + 1]);
            }
            assert(pre.live(ord[k]));
        }
        assert(!ord.contains(h)) by {
            if ord.contains(h) {
                let k = ord.index_of(h);
                if k < p {
                    assert(ord0[k] == h);
                } else {
                    assert(ord0[k + 1] == h);
                }
            }
        }
        assert forall|k: int|
            0 <= k < ord.len() implies (#[trigger] post.prev_of(ord[k])) == (if k == 0 {
            NIL
        } else {
            ord[k - 1]
        }) by {
            let j: int = if k < p {
                k
            } else {
                k + 1
            };
            assert(ord[k] == ord0[j]);
            assert(pre.prev_of(ord0[j]) == (if j == 0 {
                NIL
            } else {
                ord0[j - 1]
            }));
            if p > 0 {
                assert(pre.prev_of(ord0[p - 1]) == (if p - 1 == 0 {
                    NIL
                } else {
                    ord0[p - 2]
                }));
            }
            if j != p - 1 && j != p + 1 {
                assert(post.nodes@[ord0[j] as int] == pre.nodes@[ord0[j] as int]);
            }
            if k > 0 {
                if k - 1 < p {
                    assert(ord[k - 1] == ord0[k - 1]);
                } else {
                    assert(ord[k - 1] == ord0[k]);
                }
            }
        }
        assert forall|k: int|
            0 <= k < ord.len() implies (#[trigger] post.next_of(ord[k])) == (if k == ord.len()
            - 1 {
            NIL
        } else {
            ord[k + 1]
        }) by {
            let j: int = if k < p {
                k
            } else {
                k + 1
            };
            assert(ord[k] == ord0[j]);
            assert(pre.next_of(ord0[j]) == (if j == ord0.len() - 1 {
                NIL
            } else {
                ord0[j + 1]
            }));
            if p < ord0.len() - 1 {
                assert(pre.next_of(ord0[p + 1]) == (if p + 1 == ord0.len() - 1 {
                    NIL
                } else {
                    ord0[p + 2]
                }));
            }
            if j != p - 1 && j != p + 1 {
                assert(post.nodes@[ord0[j] as int] == pre.nodes@[ord0[j] as int]);
            }
            if k < ord.len() - 1 {
                if k + 1 < p {
                    assert(ord[k + 1] == ord0[k + 1]);
                } else {
                    assert(ord[k + 1] == ord0[k + 2]);
                }
            }
        }
        if ord.len() > 0 {
            if p == 0 {
                assert(ord[0] == ord0[1]);
            } else {
                assert(ord[0] == ord0[0]);
            }
            if p == ord0.len() - 1 {
                assert(ord[ord.len() - 1] == ord0[ord0.len() - 2]);
            } else {
                assert(ord[ord.len() - 1] == ord0[ord0.len() - 1]);
            }
        }
        assert(post@ =~= pre@.remove(p));
    }

    /// Unlink the element under `h` in O(1), leaving it detached so it can
    /// be re-appended; its storage is kept.
    pub fn remove(&mut self, h: usize)
        requires
            old(self).wf(),
            old(self).linked(h),
        ensures
            final(self).wf(),
            final(self).detached(h),
            final(self).value_at(h) == old(self).value_at(h),
            final(self).handles() == old(self).handles().remove(old(self).pos_of(h)),
            final(self)@ == old(self)@.remove(old(self).pos_of(h)),
            forall|i: usize|
                old(self).live(i) ==> final(self).live(i) && final(self).value_at(i) == old(
                    self,
                ).value_at(i),
    {
        // an exec read of the length bounds nodes@.len() by usize::MAX,
        // so no live slot index can equal NIL
        let _cap: usize = self.nodes.len();
        let ghost ord0 = self.order@;
        let ghost p = ord0.index_of(h);
        proof {
            assert(ord0.contains(h));
            assert(0 <= p < ord0.len() && ord0[p] == h);
            assert(self.nodes@.len() <= usize::MAX);
        }
        let (hp, hn) = match &self.nodes[h] {
            Some(n) => (n.prev, n.next),
            None => unreached(),
        };
        proof {
            assert(self.prev_of(h) == hp && self.next_of(h) == hn);
            if p > 0 {
                assert(self.live(ord0[p - 1]));
                assert(ord0[p - 1] != NIL);
            }
            if p < ord0.len() - 1 {
                assert(self.live(ord0[p + 1]));
                assert(ord0[p + 1] != NIL);
            }
            assert(hp == (if p == 0 { NIL } else { ord0[p - 1] }));
            assert(hn == (if p == ord0.len() - 1 { NIL } else { ord0[p + 1] }));
            assert(hp == NIL <==> p == 0);
            assert(hn == NIL <==> p == ord0.len() - 1);
        }
        if hp != NIL {
            self.set_next(hp, hn);
        } else {
            self.head = hn;
        }
        if hn != NIL {
            self.set_prev(hn, hp);
        } else {
            self.tail = hp;
        }
        self.set_prev(h, NIL);
        self.set_next(h, NIL);
        proof {
            self.order@ = ord0.remove(p);
            Self::lemma_unlink_wf(*old(self), *self, h, p);
        }
    }

    /// Remove and return the payload at the head, releasing its slot.
    pub fn pop_node(&mut self) -> (r: Option<T>)
        requires
            old(self).wf(),
        ensures
            final(self).wf(),
            old(self)@.len() == 0 ==> r is None && *final(self) == *old(self),
            old(self)@.len() > 0 ==> {
                &&& r == Some(old(self)@[0])
                &&& final(self).handles() == old(self).handles().drop_first()
                &&& final(self)@ == old(self)@.drop_first()
                &&& !final(self).live(old(self).handles()[0])
                &&& forall|i: usize|
                    old(self).live(i) && i != old(self).handles()[0] ==> final(self).live(i)
                        && final(self).value_at(i) == old(self).value_at(i)
            },
    {
        // an exec read of the length bounds nodes@.len() by usize::MAX,
        // so no live slot index can equal NIL
        let _cap: usize = self.nodes.len();
        if self.head == NIL {
            proof {
                if self.order@.len() > 0 {
                    assert(self.live(self.order@[0]));
                    assert(false);
                }
            }
            return None;
        }
        proof {
            if self.order@.len() == 0 {
                assert(self.head == NIL);
            }
            assert(self.order@[0] == self.head);
            assert(self.order@.contains(self.head));
        }
        let h: usize = self.head;
        self.remove(h);
        let v = self.take(h);
        proof {
            assert(old(self).pos_of(h) == 0) by {
                assert(old(self).handles()[0] == h);
                if old(self).handles().index_of(h) != 0 {
                    assert(old(self).handles()[old(self).handles().index_of(h)] == h);
                }
            }
            assert(self.handles() =~= old(self).handles().drop_first());
            assert(self@ =~= old(self)@.drop_first());
        }
        Some(v)
    }

    /// Take the payload of the detached element under `h`, releasing its slot.
    pub fn take(&mut self, h: usize) -> (r: T)
        requires
            old(self).wf(),
            old(self).detached(h),
        ensures
            final(self).wf(),
            r == old(self).value_at(h),
            !final(self).live(h),
            final(self).handles() == old(self).handles(),
            final(self)@ == old(self)@,
            forall|i: usize|
                old(self).live(i) && i != h ==> final(self).live(i) && final(self).value_at(i)
                    == old(self).value_at(i),
    {
        let slot = self.nodes[h].take();
        self.free.push(h);
        proof {
            assert forall|k: int|
                0 <= k < self.order@.len() implies (#[trigger] self.order@[k])
                < self.nodes@.len() && self.nodes@[self.order@[k] as int] == old(
                self,
            ).nodes@[self.order@[k] as int] by {
                assert(old(self).live(self.order@[k]));
                assert(self.order@[k] != h);
            }
            assert forall|i1: int, i2: int|
                0 <= i1 < i2 < self.free@.len() implies self.free@[i1] != self.free@[i2] by {
                if i2 == self.free@.len() - 1 {
                    assert(old(self).nodes@[old(self).free@[i1] as int] is None);
                    assert(old(self).live(h));
                }
            }
            assert forall|i: int|
                0 <= i < self.free@.len() implies (#[trigger] self.free@[i]) < self.nodes@.len()
                && self.nodes@[self.free@[i] as int] is None by {
                if i < self.free@.len() - 1 {
                    assert(old(self).nodes@[old(self).free@[i] as int] is None);
                    assert(old(self).live(h));
                }
            }
            Self::lemma_links_frame(*old(self), *self);
            assert(self@ =~= old(self)@);
        }
        match slot {
            Some(n) => n.value,
            None => unreached(),
        }
    }

}

impl<T: Dup> Queue<T> {
    /// A snapshot of the payloads, front to back.
    pub fn iter(&self) -> (it: Iter<T>)
        requires
            self.wf(),
        ensures
            it@ == self@,
    {
        // an exec read of the length bounds nodes@.len() by usize::MAX,
        // so no live slot index can equal NIL
        let _cap: usize = self.nodes.len();
        let mut items: Vec<T> = Vec::new();
        let mut h: usize = self.head;
        let ghost mut k: int = 0;
        proof {
            assert(self.nodes@.len() <= usize::MAX);
            if self.order@.len() > 0 {
                assert(self.live(self.order@[0]));
            }
        }
        while h != NIL
            invariant
                self.wf(),
                self.nodes@.len() <= usize::MAX,
                0 <= k <= self.handles().len(),
                items@ == self@.take(k),
                k < self.handles().len() ==> h == self.handles()[k],
                k == self.handles().len() ==> h == NIL,
            decreases self.handles().len() - k,
        {
            proof {
                if k == self.handles().len() {
                    assert(false);
                }
                assert(self.live(self.handles()[k]));
                assert(self.next_of(self.handles()[k]) == (if k == self.handles().len() - 1 {
                    NIL
                } else {
                    self.handles()[k + 1]
                }));
                if k < self.handles().len() - 1 {
                    assert(self.live(self.handles()[k + 1]));
                    assert(self.handles()[k + 1] != NIL);
                }
            }
            let v = match &self.nodes[h] {
                Some(n) => {
                    let v = n.value.dup();
                    h = n.next;
                    v
                },
                None => unreached(),
            };
            items.push(v);
            proof {
                k = k + 1;
                assert(items@ =~= self@.take(k));
            }
        }
        proof {
            assert(self@.take(k) =~= self@);
        }
        Iter { items }
    }
}

/// A front-to-back snapshot of a queue's payloads.
pub struct Iter<T> {
    items: Vec<T>,
}

impl<T> View for Iter<T> {
    type V = Seq<T>;

    closed spec fn view(&self) -> Seq<T> {
        self.items@
    }
}

impl<T> Iter<T> {
    /// The next payload, front first.
    pub fn next(&mut self) -> (r: Option<T>)
        ensures
            old(self)@.len() > 0 ==> r == Some(old(self)@[0]) && final(self)@ == old(
                self,
            )@.drop_first(),
            old(self)@.len() == 0 ==> r is None && final(self)@ == old(self)@,
    {
        if self.items.len() > 0 {
            let v = self.items.remove(0);
            proof {
                assert(self@ =~= old(self)@.drop_first());
            }
            Some(v)
        } else {
            None
        }
    }
}

} // verus!
