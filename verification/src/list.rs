//! A doubly linked list over an arena of reference-counted slots.
//!
//! Every node lives in a slot of an arena owned by the [`List`]; the list's
//! links and every externally held [`NodeRef`] name a node by its slot index.
//! A node's storage is jointly owned by the list's link structure (while the
//! node is linked) and by the outstanding handles to it; the payload is
//! dropped exactly when the last of these owners lets go.  Access to a
//! payload is arbitrated per node at runtime: any number of read borrows, or
//! one write borrow, never both.

use vstd::prelude::*;
use core::marker::PhantomData;

verus! {

/// One arena cell.  `elem` is `Some` exactly while the node's storage is
/// alive, that is while the node is linked or some handle still owns it.
struct Slot<T> {
    elem: Option<T>,
    next: Option<usize>,
    prev: Option<usize>,
    /// True while the list's link structure reaches this node.
    linked: bool,
    /// Number of outstanding `NodeRef` handles to this node.
    handles: usize,
    /// Number of outstanding read borrows on the payload.
    reads: usize,
    /// True while a write borrow on the payload is outstanding.
    writing: bool,
}

/// The per-slot invariant: storage is alive exactly while the slot is owned
/// by the link structure or by a handle; a detached slot carries no links; a
/// dead slot is inert; no payload is read- and write-borrowed at once; and a
/// node never has more owners than one link plus the at most two handles the
/// operations can issue.
spec fn slot_inv<T>(s: Slot<T>) -> bool {
    &&& ((s.elem is Some) <==> (s.linked || s.handles > 0))
    &&& (!s.linked ==> s.next is None && s.prev is None)
    &&& !(s.reads > 0 && s.writing)
    &&& (s.elem is None ==> s.reads == 0 && !s.writing && s.handles == 0)
    &&& s.handles + (if s.linked {
        1int
    } else {
        0int
    }) <= 2
}

/// The container: an arena of slots plus the index of the head node.
///
/// Teardown is iterative by construction.  The nodes sit side by side in
/// the arena rather than in an ownership chain — the forward and backward
/// links are plain indices with no ownership weight — so dropping the list
/// frees the slots one at a time in a flat loop, with a call stack that
/// stays bounded no matter how long the list is.
pub struct List<T> {
    slots: Vec<Slot<T>>,
    head: Option<usize>,
    /// The linked nodes' slot indices, front to back.
    order: Ghost<Seq<int>>,
}

/// An externally held, independently owned reference to one node of a
/// [`List`].  It does not grant access by itself: reading or writing the
/// payload goes through a runtime-arbitrated borrow taken from the list.
pub struct NodeRef<T> {
    idx: usize,
    marker: PhantomData<T>,
}

/// A scoped read borrow of one node's payload; release it with
/// [`ReadBorrow::release`].
pub struct ReadBorrow {
    idx: usize,
}

/// A scoped exclusive borrow of one node's payload; release it with
/// [`WriteBorrow::release`].
pub struct WriteBorrow {
    idx: usize,
}

/// A one-shot forward iterator over a list's payloads, front to back.
pub struct IntoIter<T> {
    list: List<T>,
}

impl<T> View for NodeRef<T> {
    type V = int;

    /// A handle's view is the identity of the node it references.
    closed spec fn view(&self) -> int {
        self.idx as int
    }
}

impl View for ReadBorrow {
    type V = int;

    closed spec fn view(&self) -> int {
        self.idx as int
    }
}

impl View for WriteBorrow {
    type V = int;

    closed spec fn view(&self) -> int {
        self.idx as int
    }
}

impl<T> View for List<T> {
    type V = Seq<T>;

    /// A list's view is the sequence of linked payloads, front to back.
    closed spec fn view(&self) -> Seq<T> {
        self.order@.map(|_k: int, i: int| self.slots@[i].elem->0)
    }
}

impl<T> List<T> {
    /// The node `i` still has storage: it is linked or some handle owns it.
    pub closed spec fn live(self, i: int) -> bool {
        0 <= i < self.slots@.len() && self.slots@[i].elem is Some
    }

    /// The payload currently stored in node `i` (meaningful when live).
    pub closed spec fn payload(self, i: int) -> T {
        self.slots@[i].elem->0
    }

    /// The list's link structure still reaches node `i`.
    pub closed spec fn linked(self, i: int) -> bool {
        self.live(i) && self.slots@[i].linked
    }

    /// Number of outstanding handles to node `i`.
    pub closed spec fn handles(self, i: int) -> nat {
        self.slots@[i].handles as nat
    }

    /// Number of outstanding read borrows on node `i`'s payload.
    pub closed spec fn reads(self, i: int) -> nat {
        self.slots@[i].reads as nat
    }

    /// A write borrow on node `i`'s payload is outstanding.
    pub closed spec fn writing(self, i: int) -> bool {
        self.slots@[i].writing
    }

    /// Position of node `i` among the linked nodes (meaningful when linked).
    pub closed spec fn pos(self, i: int) -> int {
        choose|k: int| 0 <= k < self.order@.len() && self.order@[k] == i
    }

    /// Identity of the front node (meaningful when the list is non-empty).
    pub closed spec fn front_id(self) -> int {
        self.order@[0]
    }

    /// How many owners node `i` has: its handles, plus the list's link
    /// structure while the node is linked.
    pub open spec fn owners(self, i: int) -> nat {
        self.handles(i) + if self.linked(i) { 1nat } else { 0nat }
    }

    /// No borrow on node `i`'s payload is outstanding.
    pub open spec fn unborrowed(self, i: int) -> bool {
        self.reads(i) == 0 && !self.writing(i)
    }

    /// A read borrow on node `i` may be taken: no writer, and the read
    /// count can still grow.
    pub open spec fn readable(self, i: int) -> bool {
        self.live(i) && !self.writing(i) && self.reads(i) < usize::MAX
    }

    /// A write borrow on node `i` may be taken: no borrow of any kind is
    /// outstanding.
    pub open spec fn writable(self, i: int) -> bool {
        self.live(i) && self.unborrowed(i)
    }

    /// Node `i` has exactly one remaining owner, a handle, and no borrow is
    /// outstanding: its payload may be extracted by value.
    pub open spec fn sole_owner(self, i: int) -> bool {
        self.live(i) && !self.linked(i) && self.handles(i) == 1 && self.unborrowed(i)
    }

    /// No linked node has an outstanding handle or borrow, so the list's
    /// payloads may all be extracted in turn.
    pub open spec fn handle_free(self) -> bool {
        forall|i: int| #[trigger] self.linked(i) ==> self.handles(i) == 0 && self.unborrowed(i)
    }

    /// Nothing about node `i` differs between `self` and `post`.
    pub open spec fn node_unchanged(self, post: List<T>, i: int) -> bool {
        &&& (post.live(i) <==> self.live(i))
        &&& (self.live(i) ==> {
            &&& post.payload(i) == self.payload(i)
            &&& post.linked(i) == self.linked(i)
            &&& post.handles(i) == self.handles(i)
            &&& post.reads(i) == self.reads(i)
            &&& post.writing(i) == self.writing(i)
        })
    }

    /// Well-formedness of the whole structure: the ghost order matches the
    /// head and the forward and backward links pairwise, linked nodes are
    /// exactly those the order lists, storage is alive exactly while owned,
    /// dead slots are inert, and no payload is read- and write-borrowed at
    /// once.
    pub closed spec fn wf(self) -> bool {
        let ord = self.order@;
        let slots = self.slots@;
        &&& (match self.head {
            Some(h) => ord.len() > 0 && ord[0] == h as int,
            None => ord.len() == 0,
        })
        &&& forall|k: int| 0 <= k < ord.len() ==> {
            let i = #[trigger] ord[k];
            &&& 0 <= i < slots.len()
            &&& slots[i].elem is Some
            &&& slots[i].linked
            &&& slots[i].next == (if k + 1 < ord.len() {
                Some(ord[k + 1] as usize)
            } else {
                None::<usize>
            })
            &&& slots[i].prev == (if k > 0 { Some(ord[k - 1] as usize) } else { None::<usize> })
        }
        &&& forall|k1: int, k2: int| 0 <= k1 < k2 < ord.len() ==> ord[k1] != ord[k2]
        &&& forall|i: int|
            0 <= i < slots.len() ==> (#[trigger] slots[i].linked <==> ord.contains(i))
        &&& forall|i: int| 0 <= i < slots.len() ==> slot_inv(#[trigger] slots[i])
    }

    /// Push a value at the front: allocate a new node holding `elem`, link
    /// it before the old head, and return a handle to it.  The new node has
    /// exactly one handle — the one returned — and no borrow outstanding.
    #[verifier::rlimit(100)]
    pub fn push_front(&mut self, elem: T) -> (h: NodeRef<T>)
        requires
            old(self).wf(),
        ensures
            final(self).wf(),
            final(self)@ == old(self)@.insert(0, elem),
            !old(self).live(h@),
            final(self).live(h@),
            final(self).payload(h@) == elem,
            final(self).linked(h@),
            final(self).front_id() == h@,
            final(self).pos(h@) == 0,
            final(self).handles(h@) == 1,
            final(self).reads(h@) == 0,
            !final(self).writing(h@),
            forall|i: int|
                #![trigger final(self).live(i)]
                #![trigger old(self).live(i)]
                i != h@ ==> old(self).node_unchanged(*final(self), i),
            forall|i: int|
                old(self).linked(i) ==> #[trigger] final(self).pos(i) == old(self).pos(i) + 1,
    {
        let idx = self.slots.len();
        let old_head = self.head;
        self.slots.push(
            Slot {
                elem: Some(elem),
                next: old_head,
                prev: None,
                linked: true,
                handles: 1,
                reads: 0,
                writing: false,
            },
        );
        match old_head {
            Some(oh) => {
                let s = &mut self.slots[oh];
                s.prev = Some(idx);
            },
            None => {},
        }
        self.head = Some(idx);
        let ghost old_ord = self.order@;
        proof {
            self.order@ = seq![idx as int] + old_ord;
        }
        proof {
            let ord = self.order@;
            assert forall|i: int| 0 <= i < idx implies {
                &&& (#[trigger] self.slots@[i]).elem == old(self).slots@[i].elem
                &&& self.slots@[i].reads == old(self).slots@[i].reads
                &&& self.slots@[i].writing == old(self).slots@[i].writing
                &&& self.slots@[i].handles == old(self).slots@[i].handles
                &&& self.slots@[i].linked == old(self).slots@[i].linked
            } by {}
            assert(forall|k: int|
                0 <= k < old_ord.len() ==> 0 <= #[trigger] old_ord[k] < idx);
            assert forall|k: int| 0 <= k < ord.len() implies {
                let i = #[trigger] ord[k];
                &&& 0 <= i < self.slots@.len()
                &&& self.slots@[i].elem is Some
                &&& self.slots@[i].linked
                &&& self.slots@[i].next == (if k + 1 < ord.len() {
                    Some(ord[k + 1] as usize)
                } else {
                    None::<usize>
                })
                &&& self.slots@[i].prev == (if k > 0 {
                    Some(ord[k - 1] as usize)
                } else {
                    None::<usize>
                })
            } by {
                if k > 0 {
                    assert(ord[k] == old_ord[k - 1]);
                }
            }
            assert forall|i: int|
                0 <= i < self.slots@.len() implies (#[trigger] self.slots@[i].linked
                <==> ord.contains(i)) by {
                if i == idx {
                    assert(ord[0] == i);
                } else if i < idx {
                    if old(self).slots@[i].linked {
                        let k = choose|k: int|
                            0 <= k < old_ord.len() && old_ord[k] == i;
                        assert(ord[k + 1] == i);
                    }
                    if ord.contains(i) {
                        let k = choose|k: int| 0 <= k < ord.len() && ord[k] == i;
                        assert(old_ord[k - 1] == i);
                        assert(old_ord.contains(i));
                    }
                }
            }
            assert(final(self)@ =~= old(self)@.insert(0, elem)) by {
                assert forall|k: int| 0 <= k < ord.len() implies final(self)@[k]
                    == old(self)@.insert(0, elem)[k] by {
                    if k > 0 {
                        assert(ord[k] == old_ord[k - 1]);
                        assert(old(self)@[k - 1] == old(self).slots@[old_ord[k - 1]].elem->0);
                    }
                }
            }
            assert(final(self).pos(idx as int) == 0) by {
                assert(ord[0] == idx as int);
                let k1 = final(self).pos(idx as int);
                assert(0 <= k1 < ord.len() && ord[k1] == idx as int);
                if k1 != 0 {
                    assert(old_ord[k1 - 1] == idx as int);
                }
            }
            assert(match self.head {
                Some(h) => ord.len() > 0 && ord[0] == h as int,
                None => ord.len() == 0,
            });
            assert forall|k1: int, k2: int| 0 <= k1 < k2 < ord.len() implies ord[k1]
                != ord[k2] by {
                assert(ord[k2] == old_ord[k2 - 1]);
                if k1 > 0 {
                    assert(ord[k1] == old_ord[k1 - 1]);
                }
            }
            assert forall|i: int|
                0 <= i < self.slots@.len() implies slot_inv(#[trigger] self.slots@[i]) by {
                if i < idx {
                    assert(slot_inv(old(self).slots@[i]));
                }
            }
            assert(final(self).wf());
            assert forall|i: int| old(self).linked(i) implies #[trigger] final(self).pos(i)
                == old(self).pos(i) + 1 by {
                let k0 = old(self).pos(i);
                assert(old_ord.contains(i));
                let kw = choose|k: int| 0 <= k < old_ord.len() && old_ord[k] == i;
                assert(0 <= k0 < old_ord.len() && old_ord[k0] == i);
                assert(ord[k0 + 1] == i);
                let k1 = final(self).pos(i);
                assert(0 <= k1 < ord.len() && ord[k1] == i);
                if k1 != k0 + 1 {
                    if k1 == 0 {
                        assert(ord[0] == idx as int);
                        assert(i < idx);
                    } else {
                        assert(old_ord[k1 - 1] == i);
                        assert(old_ord[k0] == i);
                    }
                }
            }
        }
        NodeRef { idx, marker: PhantomData }
    }

    /// Pop the front node.  On an empty list this returns `None` and leaves
    /// the list untouched.  Otherwise the head is detached — its own links
    /// are cleared, its successor (if any) loses its backward link and
    /// becomes the new head — and a fresh handle to the detached node is
    /// returned.  The node's storage survives: ownership passes to the
    /// returned handle (and to any earlier handle for the same node).
    #[verifier::rlimit(100)]
    pub fn pop_front(&mut self) -> (r: Option<NodeRef<T>>)
        requires
            old(self).wf(),
        ensures
            final(self).wf(),
            old(self)@.len() == 0 ==> r is None && *final(self) == *old(self),
            old(self)@.len() > 0 ==> (r matches Some(h) && {
                &&& h@ == old(self).front_id()
                &&& old(self).linked(h@)
                &&& old(self).pos(h@) == 0
                &&& final(self).live(h@)
                &&& final(self).payload(h@) == old(self)@[0]
                &&& !final(self).linked(h@)
                &&& final(self).handles(h@) == old(self).handles(h@) + 1
                &&& final(self).reads(h@) == old(self).reads(h@)
                &&& final(self).writing(h@) == old(self).writing(h@)
                &&& final(self)@ == old(self)@.skip(1)
                &&& forall|i: int|
                    #![trigger final(self).live(i)]
                    #![trigger old(self).live(i)]
                    i != h@ ==> old(self).node_unchanged(*final(self), i)
                &&& forall|i: int|
                    i != h@ && old(self).linked(i) ==> #[trigger] final(self).pos(i)
                        == old(self).pos(i) - 1
            }),
    {
        let head_opt = self.head;
        match head_opt {
            None => None,
            Some(head_idx) => {
                let ghost old_ord = old(self).order@;
                proof {
                    assert(old_ord[0] == head_idx as int);
                    assert(old(self).pos(head_idx as int) == 0) by {
                        let k = old(self).pos(head_idx as int);
                        assert(0 <= k < old_ord.len() && old_ord[k] == head_idx as int);
                        if k != 0 {
                            assert(old_ord[0] == old_ord[k]);
                        }
                    }
                }
                let s = &mut self.slots[head_idx];
                let nxt = s.next;
                s.next = None;
                s.prev = None;
                s.linked = false;
                s.handles = s.handles + 1;
                match nxt {
                    Some(n2) => {
                        proof {
                            assert(nxt == old(self).slots@[old_ord[0]].next);
                            assert(old(self).slots@.len() <= usize::MAX) by {
                                assert(old(self).slots.len() == old(self).slots@.len());
                            }
                            assert(old_ord.len() > 1 && old_ord[1] == n2 as int);
                        }
                        let s2 = &mut self.slots[n2];
                        s2.prev = None;
                        self.head = Some(n2);
                    },
                    None => {
                        self.head = None;
                    },
                }
                proof {
                    self.order@ = old_ord.skip(1);
                }
                proof {
                    let ord = self.order@;
                    let hid = head_idx as int;
                    assert forall|i: int|
                        0 <= i < self.slots@.len() && i != hid implies {
                            &&& (#[trigger] self.slots@[i]).elem == old(self).slots@[i].elem
                            &&& self.slots@[i].reads == old(self).slots@[i].reads
                            &&& self.slots@[i].writing == old(self).slots@[i].writing
                            &&& self.slots@[i].handles == old(self).slots@[i].handles
                            &&& self.slots@[i].linked == old(self).slots@[i].linked
                            &&& self.slots@[i].next == old(self).slots@[i].next
                        } by {}
                    assert(self.slots@[hid].elem == old(self).slots@[hid].elem);
                    assert(self.slots@[hid].reads == old(self).slots@[hid].reads);
                    assert(self.slots@[hid].writing == old(self).slots@[hid].writing);
                    assert(self.slots@[hid].handles == old(self).slots@[hid].handles + 1);
                    assert(!self.slots@[hid].linked && self.slots@[hid].next is None
                        && self.slots@[hid].prev is None);
                    assert(forall|k: int|
                        0 <= k < ord.len() ==> #[trigger] ord[k] == old_ord[k + 1]);
                    assert(forall|k: int|
                        0 <= k < old_ord.len() ==> 0 <= #[trigger] old_ord[k]
                            < old(self).slots@.len());
                    assert forall|k: int| 0 <= k < ord.len() implies {
                        let i = #[trigger] ord[k];
                        &&& 0 <= i < self.slots@.len()
                        &&& self.slots@[i].elem is Some
                        &&& self.slots@[i].linked
                        &&& self.slots@[i].next == (if k + 1 < ord.len() {
                            Some(ord[k + 1] as usize)
                        } else {
                            None::<usize>
                        })
                        &&& self.slots@[i].prev == (if k > 0 {
                            Some(ord[k - 1] as usize)
                        } else {
                            None::<usize>
                        })
                    } by {
                        assert(ord[k] == old_ord[k + 1]);
                        assert(old_ord[k + 1] != old_ord[0]);
                    }
                    assert forall|i: int|
                        0 <= i < self.slots@.len() implies (#[trigger] self.slots@[i].linked
                        <==> ord.contains(i)) by {
                        if i == hid {
                            if ord.contains(i) {
                                let k = choose|k: int| 0 <= k < ord.len() && ord[k] == i;
                                assert(old_ord[k + 1] == old_ord[0]);
                            }
                        } else {
                            if old(self).slots@[i].linked {
                                assert(old_ord.contains(i));
                                let k = choose|k: int|
                                    0 <= k < old_ord.len() && old_ord[k] == i;
                                assert(k != 0);
                                assert(ord[k - 1] == i);
                            }
                            if ord.contains(i) {
                                let k = choose|k: int| 0 <= k < ord.len() && ord[k] == i;
                                assert(old_ord[k + 1] == i);
                                assert(old_ord.contains(i));
                            }
                        }
                    }
                    assert(final(self)@ =~= old(self)@.skip(1)) by {
                        assert forall|k: int| 0 <= k < ord.len() implies final(self)@[k]
                            == old(self)@.skip(1)[k] by {
                            assert(ord[k] == old_ord[k + 1]);
                            assert(old(self)@[k + 1]
                                == old(self).slots@[old_ord[k + 1]].elem->0);
                        }
                    }
                    assert forall|i: int| i != hid && old(self).linked(i) implies #[trigger]
                        final(self).pos(i) == old(self).pos(i) - 1 by {
                        let k0 = old(self).pos(i);
                        assert(old_ord.contains(i));
                        let kw = choose|k: int| 0 <= k < old_ord.len() && old_ord[k] == i;
                        assert(0 <= k0 < old_ord.len() && old_ord[k0] == i);
                        assert(k0 != 0);
                        assert(ord[k0 - 1] == i);
                        let k1 = final(self).pos(i);
                        assert(ord.contains(i)) by {
                            assert(ord[k0 - 1] == i);
                        }
                        assert(0 <= k1 < ord.len() && ord[k1] == i);
                        if k1 != k0 - 1 {
                            assert(old_ord[k1 + 1] == i);
                            assert(old_ord[k0] == i);
                        }
                    }
                    assert forall|i: int|
                        0 <= i < self.slots@.len() implies slot_inv(
                        #[trigger] self.slots@[i],
                    ) by {
                        assert(slot_inv(old(self).slots@[i]));
                    }
                    assert(final(self).wf());
                }
                Some(NodeRef { idx: head_idx, marker: PhantomData })
            },
        }
    }

    /// Construct an empty list.
    pub fn new() -> (l: List<T>)
        ensures
            l.wf(),
            l@ =~= Seq::<T>::empty(),
            forall|i: int| !(#[trigger] l.live(i)),
    {
        List { slots: Vec::new(), head: None, order: Ghost(Seq::empty()) }
    }

    /// A scoped read-only view of the front payload, or `None` on an empty
    /// list.  Taking it while a write borrow on the front node is
    /// outstanding is an aliasing violation, ruled out by the precondition.
    pub fn peek_front(&self) -> (r: Option<&T>)
        requires
            self.wf(),
            self@.len() > 0 ==> !self.writing(self.front_id()),
        ensures
            r is Some <==> self@.len() > 0,
            r matches Some(e) ==> *e == self@[0],
    {
        match self.head {
            None => None,
            Some(i) => {
                proof {
                    assert(self.order@[0] == i as int);
                    assert(self@[0] == self.slots@[i as int].elem->0);
                }
                let s = &self.slots[i];
                match &s.elem {
                    Some(e) => Some(e),
                    None => vstd::pervasive::unreached(),
                }
            },
        }
    }

    /// A scoped exclusive borrow of the front payload, or `None` on an
    /// empty list.  The front node becomes write-borrowed until the
    /// returned borrow is released; taking it while any borrow on the
    /// front node is outstanding is an aliasing violation, ruled out by
    /// the precondition.
    pub fn peek_front_mut(&mut self) -> (r: Option<WriteBorrow>)
        requires
            old(self).wf(),
            old(self)@.len() > 0 ==> old(self).unborrowed(old(self).front_id()),
        ensures
            final(self).wf(),
            old(self)@.len() == 0 ==> r is None && *final(self) == *old(self),
            old(self)@.len() > 0 ==> (r matches Some(w) && {
                &&& w@ == old(self).front_id()
                &&& old(self).linked(w@)
                &&& old(self).pos(w@) == 0
                &&& final(self)@ == old(self)@
                &&& final(self).writing(w@)
                &&& final(self).reads(w@) == 0
                &&& final(self).live(w@)
                &&& final(self).payload(w@) == old(self)@[0]
                &&& final(self).linked(w@)
                &&& final(self).handles(w@) == old(self).handles(w@)
                &&& final(self).front_id() == old(self).front_id()
                &&& forall|i: int|
                    #![trigger final(self).live(i)]
                    #![trigger old(self).live(i)]
                    i != w@ ==> old(self).node_unchanged(*final(self), i)
                &&& forall|i: int|
                    old(self).linked(i) ==> #[trigger] final(self).pos(i) == old(self).pos(i)
            }),
    {
        match self.head {
            None => None,
            Some(i) => {
                proof {
                    assert(old(self).order@[0] == i as int);
                }
                let s = &mut self.slots[i];
                s.writing = true;
                proof {
                    lemma_wf_after_slot_state_change(*old(self), *self, i as int);
                    lemma_view_after_slot_change(*old(self), *self);
                    assert(old(self).pos(i as int) == 0) by {
                        let k = old(self).pos(i as int);
                        if 0 <= k < old(self).order@.len() && old(self).order@[k] == i as int
                            && k != 0 {
                            assert(old(self).order@[0] == old(self).order@[k]);
                        }
                    }
                }
                Some(WriteBorrow { idx: i })
            },
        }
    }

    /// Consume the list, producing a one-shot forward iterator that pops
    /// each front node in turn and extracts its payload by value.
    pub fn into_iter(self) -> (it: IntoIter<T>)
        requires
            self.wf(),
        ensures
            it.inner() == self,
            it@ == self@,
    {
        IntoIter { list: self }
    }
}

impl<T> View for IntoIter<T> {
    type V = Seq<T>;

    /// An iterator's view is the sequence of payloads it has yet to yield.
    closed spec fn view(&self) -> Seq<T> {
        self.list@
    }
}

impl<T> IntoIter<T> {
    /// The underlying list that still holds the remaining nodes.
    pub closed spec fn inner(self) -> List<T> {
        self.list
    }

    /// Yield the front payload, or `None` once the list is exhausted.  Each
    /// step pops the front node and extracts its payload by value, so no
    /// handle or borrow for that node may still be outstanding.
    pub fn next(&mut self) -> (r: Option<T>)
        requires
            old(self).inner().wf(),
            old(self)@.len() > 0 ==> old(self).inner().handles(old(self).inner().front_id())
                == 0 && old(self).inner().unborrowed(old(self).inner().front_id()),
        ensures
            final(self).inner().wf(),
            old(self)@.len() == 0 ==> r is None && *final(self) == *old(self),
            old(self)@.len() > 0 ==> r == Some(old(self)@[0]) && final(self)@ == old(self)@.skip(
                1,
            ),
            old(self).inner().handle_free() ==> final(self).inner().handle_free(),
    {
        match self.list.pop_front() {
            None => None,
            Some(h) => {
                let ghost mid = self.list;
                let ghost hid = h@;
                let v = h.unwrap(&mut self.list);
                proof {
                    if old(self).inner().handle_free() {
                        assert forall|i: int| #[trigger] self.list.linked(i) implies self.list
                            .handles(i) == 0 && self.list.unborrowed(i) by {
                            assert(!self.list.live(hid));
                            assert(i != hid);
                            assert(mid.node_unchanged(self.list, i));
                            assert(mid.linked(i));
                            assert(old(self).inner().node_unchanged(mid, i));
                            assert(old(self).inner().linked(i));
                        }
                    }
                }
                Some(v)
            },
        }
    }
}

impl<T> NodeRef<T> {
    /// Take a scoped read borrow on this handle's node.  Refused — by
    /// precondition, mirroring an abort in unverified callers — while a
    /// write borrow on the node is outstanding.
    pub fn contents(&self, list: &mut List<T>) -> (b: ReadBorrow)
        requires
            old(list).wf(),
            old(list).readable(self@),
        ensures
            final(list).wf(),
            b@ == self@,
            final(list)@ == old(list)@,
            old(list)@.len() > 0 ==> final(list).front_id() == old(list).front_id(),
            forall|i: int|
                old(list).linked(i) ==> #[trigger] final(list).pos(i) == old(list).pos(i),
            forall|i: int|
                #![trigger final(list).live(i)]
                #![trigger old(list).live(i)]
                i != self@ ==> old(list).node_unchanged(*final(list), i),
            final(list).reads(self@) == old(list).reads(self@) + 1,
            final(list).live(self@),
            final(list).payload(self@) == old(list).payload(self@),
            final(list).linked(self@) == old(list).linked(self@),
            final(list).handles(self@) == old(list).handles(self@),
            final(list).writing(self@) == old(list).writing(self@),
    {
        let s = &mut list.slots[self.idx];
        s.reads = s.reads + 1;
        proof {
            lemma_wf_after_slot_state_change(*old(list), *list, self.idx as int);
            lemma_view_after_slot_change(*old(list), *list);
        }
        ReadBorrow { idx: self.idx }
    }

    /// Take a scoped exclusive borrow on this handle's node.  Refused — by
    /// precondition, mirroring an abort in unverified callers — while any
    /// borrow on the node is outstanding.
    pub fn contents_mut(&self, list: &mut List<T>) -> (b: WriteBorrow)
        requires
            old(list).wf(),
            old(list).writable(self@),
        ensures
            final(list).wf(),
            b@ == self@,
            final(list)@ == old(list)@,
            old(list)@.len() > 0 ==> final(list).front_id() == old(list).front_id(),
            forall|i: int|
                old(list).linked(i) ==> #[trigger] final(list).pos(i) == old(list).pos(i),
            forall|i: int|
                #![trigger final(list).live(i)]
                #![trigger old(list).live(i)]
                i != self@ ==> old(list).node_unchanged(*final(list), i),
            final(list).writing(self@),
            final(list).reads(self@) == 0,
            final(list).live(self@),
            final(list).payload(self@) == old(list).payload(self@),
            final(list).linked(self@) == old(list).linked(self@),
            final(list).handles(self@) == old(list).handles(self@),
    {
        let s = &mut list.slots[self.idx];
        s.writing = true;
        proof {
            lemma_wf_after_slot_state_change(*old(list), *list, self.idx as int);
            lemma_view_after_slot_change(*old(list), *list);
        }
        WriteBorrow { idx: self.idx }
    }

    /// Consume the handle and extract the payload by value.  Allowed — the
    /// precondition mirrors an abort in unverified callers — only when this
    /// handle is the sole remaining owner of the node: the list no longer
    /// links to it, no other handle exists, and no borrow is outstanding.
    /// The node's storage is freed here.
    pub fn unwrap(self, list: &mut List<T>) -> (v: T)
        requires
            old(list).wf(),
            old(list).sole_owner(self@),
        ensures
            final(list).wf(),
            v == old(list).payload(self@),
            !final(list).live(self@),
            final(list)@ == old(list)@,
            old(list)@.len() > 0 ==> final(list).front_id() == old(list).front_id(),
            forall|i: int|
                old(list).linked(i) ==> #[trigger] final(list).pos(i) == old(list).pos(i),
            forall|i: int|
                #![trigger final(list).live(i)]
                #![trigger old(list).live(i)]
                i != self@ ==> old(list).node_unchanged(*final(list), i),
    {
        let s = &mut list.slots[self.idx];
        s.handles = 0;
        let e = s.elem.take();
        proof {
            lemma_wf_after_slot_state_change(*old(list), *list, self.idx as int);
            assert(!old(list).order@.contains(self.idx as int));
            lemma_view_after_slot_change(*old(list), *list);
        }
        match e {
            Some(v) => v,
            None => vstd::pervasive::unreached(),
        }
    }

    /// Give up this handle without extracting the payload.  The node loses
    /// one owner; if that was the last one, its storage is freed.  Giving
    /// up the last owner while a borrow is still outstanding is an aliasing
    /// violation, ruled out by the precondition.
    pub fn discard(self, list: &mut List<T>)
        requires
            old(list).wf(),
            old(list).live(self@),
            old(list).handles(self@) >= 1,
            (old(list).handles(self@) == 1 && !old(list).linked(self@)) ==> old(list).unborrowed(
                self@,
            ),
        ensures
            final(list).wf(),
            final(list)@ == old(list)@,
            old(list)@.len() > 0 ==> final(list).front_id() == old(list).front_id(),
            forall|i: int|
                old(list).linked(i) ==> #[trigger] final(list).pos(i) == old(list).pos(i),
            forall|i: int|
                #![trigger final(list).live(i)]
                #![trigger old(list).live(i)]
                i != self@ ==> old(list).node_unchanged(*final(list), i),
            old(list).linked(self@) || old(list).handles(self@) >= 2 ==> {
                &&& final(list).live(self@)
                &&& final(list).handles(self@) == old(list).handles(self@) - 1
                &&& final(list).payload(self@) == old(list).payload(self@)
                &&& final(list).linked(self@) == old(list).linked(self@)
                &&& final(list).reads(self@) == old(list).reads(self@)
                &&& final(list).writing(self@) == old(list).writing(self@)
            },
            !old(list).linked(self@) && old(list).handles(self@) == 1 ==> !final(list).live(
                self@,
            ),
    {
        let s = &mut list.slots[self.idx];
        s.handles = s.handles - 1;
        if s.handles == 0 && !s.linked {
            let _freed = s.elem.take();
        }
        proof {
            lemma_wf_after_slot_state_change(*old(list), *list, self.idx as int);
            if !old(list).linked(self@) {
                assert(!old(list).order@.contains(self.idx as int));
            }
            lemma_view_after_slot_change(*old(list), *list);
        }
    }

    /// Whether a read borrow on this handle's node may be taken now.
    pub fn can_read(&self, list: &List<T>) -> (r: bool)
        ensures
            r == list.readable(self@),
    {
        self.idx < list.slots.len() && {
            let s = &list.slots[self.idx];
            s.elem.is_some() && !s.writing && s.reads < usize::MAX
        }
    }

    /// Whether an exclusive borrow on this handle's node may be taken now.
    pub fn can_write(&self, list: &List<T>) -> (r: bool)
        ensures
            r == list.writable(self@),
    {
        self.idx < list.slots.len() && {
            let s = &list.slots[self.idx];
            s.elem.is_some() && s.reads == 0 && !s.writing
        }
    }

    /// Whether this handle is the sole remaining owner of its node, so that
    /// [`NodeRef::unwrap`] may extract the payload.
    pub fn can_unwrap(&self, list: &List<T>) -> (r: bool)
        ensures
            r == list.sole_owner(self@),
    {
        self.idx < list.slots.len() && {
            let s = &list.slots[self.idx];
            s.elem.is_some() && !s.linked && s.handles == 1 && s.reads == 0 && !s.writing
        }
    }
}

impl ReadBorrow {
    /// Read the payload through this borrow.
    pub fn get<'a, T>(&self, list: &'a List<T>) -> (r: &'a T)
        requires
            list.wf(),
            list.live(self@),
            list.reads(self@) > 0,
        ensures
            *r == list.payload(self@),
    {
        let s = &list.slots[self.idx];
        match &s.elem {
            Some(e) => e,
            None => vstd::pervasive::unreached(),
        }
    }

    /// Release this read borrow; the node's read count drops by one.
    pub fn release<T>(self, list: &mut List<T>)
        requires
            old(list).wf(),
            old(list).live(self@),
            old(list).reads(self@) > 0,
        ensures
            final(list).wf(),
            final(list)@ == old(list)@,
            old(list)@.len() > 0 ==> final(list).front_id() == old(list).front_id(),
            forall|i: int|
                old(list).linked(i) ==> #[trigger] final(list).pos(i) == old(list).pos(i),
            forall|i: int|
                #![trigger final(list).live(i)]
                #![trigger old(list).live(i)]
                i != self@ ==> old(list).node_unchanged(*final(list), i),
            final(list).reads(self@) == old(list).reads(self@) - 1,
            final(list).live(self@),
            final(list).payload(self@) == old(list).payload(self@),
            final(list).linked(self@) == old(list).linked(self@),
            final(list).handles(self@) == old(list).handles(self@),
            final(list).writing(self@) == old(list).writing(self@),
    {
        let s = &mut list.slots[self.idx];
        s.reads = s.reads - 1;
        proof {
            lemma_wf_after_slot_state_change(*old(list), *list, self.idx as int);
            lemma_view_after_slot_change(*old(list), *list);
        }
    }
}

impl WriteBorrow {
    /// Read the payload through this exclusive borrow.
    pub fn get<'a, T>(&self, list: &'a List<T>) -> (r: &'a T)
        requires
            list.wf(),
            list.live(self@),
            list.writing(self@),
        ensures
            *r == list.payload(self@),
    {
        let s = &list.slots[self.idx];
        match &s.elem {
            Some(e) => e,
            None => vstd::pervasive::unreached(),
        }
    }

    /// Overwrite the payload through this exclusive borrow.  If the node is
    /// still linked, the list's view changes at the node's position;
    /// otherwise the view is untouched.
    pub fn set<T>(&self, list: &mut List<T>, v: T)
        requires
            old(list).wf(),
            old(list).live(self@),
            old(list).writing(self@),
        ensures
            final(list).wf(),
            final(list).payload(self@) == v,
            old(list).linked(self@) ==> 0 <= old(list).pos(self@) < old(list)@.len()
                && final(list)@ == old(list)@.update(old(list).pos(self@), v),
            !old(list).linked(self@) ==> final(list)@ == old(list)@,
            old(list)@.len() > 0 ==> final(list).front_id() == old(list).front_id(),
            forall|i: int|
                old(list).linked(i) ==> #[trigger] final(list).pos(i) == old(list).pos(i),
            forall|i: int|
                #![trigger final(list).live(i)]
                #![trigger old(list).live(i)]
                i != self@ ==> old(list).node_unchanged(*final(list), i),
            final(list).live(self@),
            final(list).linked(self@) == old(list).linked(self@),
            final(list).handles(self@) == old(list).handles(self@),
            final(list).reads(self@) == old(list).reads(self@),
            final(list).writing(self@),
    {
        let s = &mut list.slots[self.idx];
        s.elem = Some(v);
        proof {
            lemma_wf_after_slot_state_change(*old(list), *list, self.idx as int);
            let sid = self.idx as int;
            if old(list).linked(sid) {
                assert(old(list).order@.contains(sid));
                let k = old(list).pos(sid);
                assert(0 <= k < old(list).order@.len() && old(list).order@[k] == sid);
                assert(final(list)@ =~= old(list)@.update(k, v)) by {
                    assert forall|j: int|
                        0 <= j < old(list).order@.len() implies final(list)@[j] == old(
                        list,
                    )@.update(k, v)[j] by {
                        if j != k {
                            assert(old(list).order@[j] != sid);
                        }
                    }
                }
                assert forall|i: int| old(list).linked(i) implies #[trigger] final(list).pos(i)
                    == old(list).pos(i) by {
                    lemma_pos_congruent(*old(list), *list, i);
                }
            } else {
                assert(!old(list).order@.contains(sid));
                lemma_view_after_slot_change(*old(list), *list);
            }
        }
    }

    /// Release this exclusive borrow; the node becomes unborrowed.
    pub fn release<T>(self, list: &mut List<T>)
        requires
            old(list).wf(),
            old(list).live(self@),
            old(list).writing(self@),
        ensures
            final(list).wf(),
            final(list)@ == old(list)@,
            old(list)@.len() > 0 ==> final(list).front_id() == old(list).front_id(),
            forall|i: int|
                old(list).linked(i) ==> #[trigger] final(list).pos(i) == old(list).pos(i),
            forall|i: int|
                #![trigger final(list).live(i)]
                #![trigger old(list).live(i)]
                i != self@ ==> old(list).node_unchanged(*final(list), i),
            final(list).unborrowed(self@),
            final(list).reads(self@) == old(list).reads(self@),
            final(list).live(self@),
            final(list).payload(self@) == old(list).payload(self@),
            final(list).linked(self@) == old(list).linked(self@),
            final(list).handles(self@) == old(list).handles(self@),
    {
        let s = &mut list.slots[self.idx];
        s.writing = false;
        proof {
            lemma_wf_after_slot_state_change(*old(list), *list, self.idx as int);
            lemma_view_after_slot_change(*old(list), *list);
        }
    }
}

/// Changing one slot's non-link state — its payload presence, handle count
/// or borrow counters — preserves well-formedness, provided the new state
/// still satisfies the per-slot invariant.
#[verifier::rlimit(100)]
proof fn lemma_wf_after_slot_state_change<T>(pre: List<T>, post: List<T>, i: int)
    requires
        pre.wf(),
        post.order@ == pre.order@,
        post.head == pre.head,
        post.slots@.len() == pre.slots@.len(),
        0 <= i < pre.slots@.len(),
        forall|j: int|
            0 <= j < pre.slots@.len() && j != i ==> post.slots@[j] == #[trigger] pre.slots@[j],
        post.slots@[i].next == pre.slots@[i].next,
        post.slots@[i].prev == pre.slots@[i].prev,
        post.slots@[i].linked == pre.slots@[i].linked,
        slot_inv(post.slots@[i]),
    ensures
        post.wf(),
{
    let ord = post.order@;
    assert forall|k: int| 0 <= k < ord.len() implies {
        let n = #[trigger] ord[k];
        &&& 0 <= n < post.slots@.len()
        &&& post.slots@[n].elem is Some
        &&& post.slots@[n].linked
        &&& post.slots@[n].next == (if k + 1 < ord.len() {
            Some(ord[k + 1] as usize)
        } else {
            None::<usize>
        })
        &&& post.slots@[n].prev == (if k > 0 { Some(ord[k - 1] as usize) } else { None::<usize> })
    } by {
        assert(pre.slots@[ord[k]].linked);
        assert(slot_inv(post.slots@[ord[k]]));
    }
    assert forall|j: int|
        0 <= j < post.slots@.len() implies (#[trigger] post.slots@[j].linked <==> ord.contains(
        j,
    )) by {
        assert(pre.slots@[j].linked <==> pre.order@.contains(j));
    }
    assert forall|j: int|
        0 <= j < post.slots@.len() implies slot_inv(#[trigger] post.slots@[j]) by {
        if j != i {
            assert(post.slots@[j] == pre.slots@[j]);
            assert(slot_inv(pre.slots@[j]));
        }
    }
    assert(match post.head {
        Some(h) => ord.len() > 0 && ord[0] == h as int,
        None => ord.len() == 0,
    });
    assert forall|k1: int, k2: int| 0 <= k1 < k2 < ord.len() implies ord[k1] != ord[k2] by {
        assert(pre.order@[k1] != pre.order@[k2]);
    }
}

/// `pos` agrees between two lists with the same node order.
proof fn lemma_pos_congruent<T>(pre: List<T>, post: List<T>, i: int)
    requires
        pre.wf(),
        post.order@ == pre.order@,
        pre.linked(i),
    ensures
        post.pos(i) == pre.pos(i),
{
    assert(pre.order@.contains(i));
    let kw = choose|k: int| 0 <= k < pre.order@.len() && pre.order@[k] == i;
    assert(0 <= pre.pos(i) < pre.order@.len() && pre.order@[pre.pos(i)] == i);
    assert(0 <= post.pos(i) < post.order@.len() && post.order@[post.pos(i)] == i);
    if pre.pos(i) != post.pos(i) {
        assert(pre.order@[pre.pos(i)] == pre.order@[post.pos(i)]);
    }
}

/// The two lists have the same order and the same payload in every linked
/// slot, so their views agree.  Helper for operations that touch only the
/// non-payload fields of slots.
proof fn lemma_view_after_slot_change<T>(pre: List<T>, post: List<T>)
    requires
        pre.wf(),
        post.order@ == pre.order@,
        post.slots@.len() == pre.slots@.len(),
        forall|k: int|
            0 <= k < pre.order@.len() ==> post.slots@[#[trigger] pre.order@[k]].elem
                == pre.slots@[pre.order@[k]].elem,
    ensures
        post@ == pre@,
        pre@.len() > 0 ==> post.front_id() == pre.front_id(),
        forall|i: int| pre.linked(i) ==> #[trigger] post.pos(i) == pre.pos(i),
{
    assert(post@ =~= pre@);
    assert forall|i: int| pre.linked(i) implies #[trigger] post.pos(i) == pre.pos(i) by {
        lemma_pos_congruent(pre, post, i);
    }
}

/// What a run of `push_front` calls does to the view, starting from the
/// empty list: each value of `vs`, in order, is inserted at position 0.
pub open spec fn pushed_front_view<T>(vs: Seq<T>) -> Seq<T>
    decreases vs.len(),
{
    if vs.len() == 0 {
        Seq::empty()
    } else {
        pushed_front_view(vs.drop_last()).insert(0, vs.last())
    }
}

/// Law: pushing `v1, …, vn` onto an empty list leaves the view holding the
/// values in exactly reverse push order, so the n following `pop_front`
/// calls — each of which yields the view's first element and drops it —
/// return `vn, …, v1`.
pub proof fn lemma_push_front_reverses<T>(vs: Seq<T>)
    ensures
        pushed_front_view(vs) == vs.reverse(),
    decreases vs.len(),
{
    if vs.len() == 0 {
        assert(pushed_front_view(vs) =~= vs.reverse());
    } else {
        lemma_push_front_reverses(vs.drop_last());
        assert(pushed_front_view(vs) =~= vs.reverse());
    }
}

/// Law: the per-node borrow state machine.  While a write borrow is
/// outstanding no borrow of either kind may be taken; while read borrows
/// are outstanding no write borrow may be taken; and a node that is alive
/// and unborrowed accepts either kind again, which is what releasing the
/// conflicting borrow restores.
pub proof fn lemma_borrow_arbitration<T>(l: List<T>, i: int)
    ensures
        l.writing(i) ==> !l.readable(i) && !l.writable(i),
        l.reads(i) > 0 ==> !l.writable(i),
        l.live(i) && l.unborrowed(i) ==> l.writable(i),
        l.live(i) && l.unborrowed(i) && l.reads(i) < usize::MAX ==> l.readable(i),
{
}

/// Law: a node the list still links to is never a handle's sole property,
/// so extracting its payload by value is refused until the node has been
/// popped.
pub proof fn lemma_linked_blocks_unwrap<T>(l: List<T>, i: int)
    requires
        l.linked(i),
    ensures
        !l.sole_owner(i),
{
}

/// Law: storage follows ownership.  A live node has at least one owner —
/// the list's link or a handle — and a linked node is always live.
pub proof fn lemma_live_iff_owned<T>(l: List<T>, i: int)
    requires
        l.wf(),
    ensures
        l.live(i) ==> l.owners(i) > 0,
        l.linked(i) ==> l.live(i),
{
    if l.live(i) {
        assert(slot_inv(l.slots@[i]));
    }
}

/// A linked node's payload is the view element at the node's position, and
/// position 0 is the front.
pub proof fn lemma_payload_at_pos<T>(l: List<T>, i: int)
    requires
        l.wf(),
        l.linked(i),
    ensures
        0 <= l.pos(i) < l@.len(),
        l@[l.pos(i)] == l.payload(i),
        l.pos(i) == 0 ==> l.front_id() == i,
{
    assert(l.order@.contains(i));
    let kw = choose|k: int| 0 <= k < l.order@.len() && l.order@[k] == i;
    assert(0 <= l.pos(i) < l.order@.len() && l.order@[l.pos(i)] == i);
    assert(l@[l.pos(i)] == l.slots@[l.order@[l.pos(i)]].elem->0);
}

} // verus!
