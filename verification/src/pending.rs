//! The pending-response map: the request ids awaiting a response. A ghost
//! set remembers every id whose response has been completed, so that the
//! map can promise never to hold one of those again — a late or duplicate
//! response finds nothing and is dropped.

use vstd::prelude::*;

use crate::util::bytes_eq;

verus! {

/// The ids of requests sent and not yet answered.
pub struct PendingMap {
    pending: Vec<Vec<u8>>,
    completed: Ghost<Set<Seq<u8>>>,
}

impl PendingMap {
    /// The pending ids, oldest first.
    pub closed spec fn pending_seq(&self) -> Seq<Vec<u8>> {
        self.pending@
    }

    /// A response for this id is still owed.
    pub open spec fn is_pending(&self, rid: Seq<u8>) -> bool {
        exists|i: int| 0 <= i < self.pending_seq().len() && (#[trigger] self.pending_seq()[i])@
            == rid
    }

    /// The ids whose response has been completed.
    pub closed spec fn completed_set(&self) -> Set<Seq<u8>> {
        self.completed@
    }

    /// No id twice, and no pending id was ever completed.
    pub closed spec fn wf(&self) -> bool {
        &&& forall|i: int, j: int|
            0 <= i < j < self.pending@.len() ==> (#[trigger] self.pending@[i])@ != (
            #[trigger] self.pending@[j])@
        &&& forall|i: int|
            0 <= i < self.pending@.len() ==> !self.completed@.contains(
                (#[trigger] self.pending@[i])@,
            )
    }

    /// The map never holds an id for which a response has been completed.
    pub proof fn lemma_no_completed_id_pending(&self)
        requires
            self.wf(),
        ensures
            forall|rid: Seq<u8>|
                #[trigger] self.is_pending(rid) ==> !self.completed_set().contains(rid),
    {
        assert forall|rid: Seq<u8>| #[trigger]
            self.is_pending(rid) implies !self.completed_set().contains(rid) by {
            let i = choose|i: int|
                0 <= i < self.pending_seq().len() && (#[trigger] self.pending_seq()[i])@ == rid;
        }
    }

    pub fn new() -> (r: Self)
        ensures
            r.wf(),
            forall|rid: Seq<u8>| !r.is_pending(rid),
            r.completed_set() == Set::<Seq<u8>>::empty(),
    {
        PendingMap { pending: Vec::new(), completed: Ghost(Set::empty()) }
    }

    fn find(&self, rid: &Vec<u8>) -> (r: Option<usize>)
        ensures
            match r {
                Some(i) => i < self.pending@.len() && self.pending@[i as int]@ == rid@,
                None => forall|j: int|
                    0 <= j < self.pending@.len() ==> (#[trigger] self.pending@[j])@ != rid@,
            },
    {
        let n = self.pending.len();
        let mut i: usize = 0;
        while i < n
            invariant
                n == self.pending@.len(),
                0 <= i <= n,
                forall|j: int| 0 <= j < i ==> (#[trigger] self.pending@[j])@ != rid@,
            decreases n - i,
        {
            if bytes_eq(&self.pending[i], rid) {
                return Some(i);
            }
            i += 1;
        }
        None
    }

    /// Record a freshly sent request. A new request under an id supersedes
    /// anything the map knew of that id.
    pub fn insert(&mut self, rid: Vec<u8>)
        requires
            old(self).wf(),
        ensures
            final(self).wf(),
            forall|r: Seq<u8>|
                #[trigger] final(self).is_pending(r) <==> (old(self).is_pending(r) || r == rid@),
            final(self).completed_set() == old(self).completed_set().remove(rid@),
    {
        let ghost nm = rid@;
        match self.find(&rid) {
            Some(i) => {
                self.pending.remove(i);
            },
            None => {},
        }
        let ghost mid = self.pending@;
        proof {
            assert(forall|j: int| 0 <= j < mid.len() ==> (#[trigger] mid[j])@ != nm) by {
                if exists|j: int| 0 <= j < mid.len() && (#[trigger] mid[j])@ == nm {
                    let j = choose|j: int| 0 <= j < mid.len() && (#[trigger] mid[j])@ == nm;
                    let pre = old(self).pending@;
                    if self.pending@.len() < pre.len() {
                        let i = choose|i: int| 0 <= i < pre.len() && (#[trigger] pre[i])@ == nm;
                    }
                }
            }
        }
        self.pending.push(rid);
        self.completed = Ghost(self.completed@.remove(nm));
        proof {
            let pre = old(self).pending@;
            assert(old(self).pending_seq() == pre);
            assert(self.pending_seq()[mid.len() as int]@ == nm);
            if mid.len() < pre.len() {
                assert(exists|i0: int| 0 <= i0 < pre.len() && (#[trigger] pre[i0])@ == nm);
            }
            assert forall|r: Seq<u8>| #[trigger]
                self.is_pending(r) <==> (old(self).is_pending(r) || r == nm) by {
                if self.is_pending(r) {
                    let j = choose|j: int|
                        0 <= j < self.pending_seq().len() && (#[trigger] self.pending_seq()[j])@
                            == r;
                    if j < mid.len() {
                        assert(mid[j]@ == r);
                        if mid.len() < pre.len() {
                            let i0 = choose|i0: int|
                                0 <= i0 < pre.len() && (#[trigger] pre[i0])@ == nm;
                            let b = if j < i0 {
                                j
                            } else {
                                j + 1
                            };
                            assert(mid =~= pre.remove(i0));
                            assert(old(self).pending_seq()[b]@ == r);
                        } else {
                            assert(old(self).pending_seq()[j]@ == r);
                        }
                    }
                }
                if old(self).is_pending(r) && r != nm {
                    let i = choose|i: int|
                        0 <= i < pre.len() && (#[trigger] old(self).pending_seq()[i])@ == r;
                    if mid.len() < pre.len() {
                        let i0 = choose|i0: int|
                            0 <= i0 < pre.len() && (#[trigger] pre[i0])@ == nm;
                        assert(i != i0);
                        let b = if i < i0 {
                            i
                        } else {
                            i - 1
                        };
                        assert(mid =~= pre.remove(i0));
                        assert(self.pending_seq()[b]@ == r);
                    } else {
                        assert(self.pending_seq()[i]@ == r);
                    }
                }
            }
            assert forall|i: int, j: int|
                0 <= i < j < self.pending@.len() implies (#[trigger] self.pending@[i])@ != (
                #[trigger] self.pending@[j])@ by {
                if mid.len() < pre.len() {
                    let i0 = choose|i0: int| 0 <= i0 < pre.len() && (#[trigger] pre[i0])@ == nm;
                    assert(mid =~= pre.remove(i0));
                    if j < mid.len() {
                        let bi = if i < i0 {
                            i
                        } else {
                            i + 1
                        };
                        let bj = if j < i0 {
                            j
                        } else {
                            j + 1
                        };
                        assert(self.pending@[i] == pre[bi] && self.pending@[j] == pre[bj]);
                    } else {
                        assert(self.pending@[j]@ == nm);
                        assert(self.pending@[i] == mid[i]);
                    }
                } else {
                    if j < mid.len() {
                        assert(self.pending@[i] == pre[i] && self.pending@[j] == pre[j]);
                    } else {
                        assert(self.pending@[j]@ == nm);
                        assert(self.pending@[i] == mid[i]);
                    }
                }
            }
        }
    }

    /// Take the pending entry a response answers, if the id is known;
    /// completing marks the id so it can never be pending again.
    pub fn complete(&mut self, rid: &Vec<u8>) -> (found: bool)
        requires
            old(self).wf(),
        ensures
            final(self).wf(),
            found == old(self).is_pending(rid@),
            forall|r: Seq<u8>|
                #[trigger] final(self).is_pending(r) <==> (old(self).is_pending(r) && r != rid@),
            final(self).completed_set() == if found {
                old(self).completed_set().insert(rid@)
            } else {
                old(self).completed_set()
            },
    {
        let ghost pre = self.pending@;
        match self.find(rid) {
            Some(i) => {
                self.pending.remove(i);
                self.completed = Ghost(self.completed@.insert(rid@));
                proof {
                    assert(self.pending@ =~= pre.remove(i as int));
                    assert(old(self).pending_seq() == pre);
                    assert(old(self).pending_seq()[i as int]@ == rid@);
                    assert(old(self).is_pending(rid@));
                    assert forall|r: Seq<u8>| #[trigger]
                        self.is_pending(r) <==> (old(self).is_pending(r) && r != rid@) by {
                        if self.is_pending(r) {
                            let j = choose|j: int|
                                0 <= j < self.pending_seq().len() && (#[trigger] self.pending_seq(
                                )[j])@ == r;
                            let b = if j < i as int {
                                j
                            } else {
                                j + 1
                            };
                            assert(old(self).pending_seq()[b]@ == r);
                            if r == rid@ {
                                assert(pre[b]@ == pre[i as int]@);
                            }
                        }
                        if old(self).is_pending(r) && r != rid@ {
                            let j = choose|j: int|
                                0 <= j < pre.len() && (#[trigger] old(self).pending_seq()[j])@
                                    == r;
                            assert(j != i as int);
                            let b = if j < i as int {
                                j
                            } else {
                                j - 1
                            };
                            assert(self.pending_seq()[b]@ == r);
                        }
                    }
                    assert forall|i1: int, j1: int|
                        0 <= i1 < j1 < self.pending@.len() implies (#[trigger] self.pending@[i1])@
                        != (#[trigger] self.pending@[j1])@ by {
                        let b1 = if i1 < i as int {
                            i1
                        } else {
                            i1 + 1
                        };
                        let b2 = if j1 < i as int {
                            j1
                        } else {
                            j1 + 1
                        };
                        assert(self.pending@[i1] == pre[b1] && self.pending@[j1] == pre[b2]);
                    }
                    assert forall|i1: int|
                        0 <= i1 < self.pending@.len() implies !self.completed@.contains(
                        (#[trigger] self.pending@[i1])@,
                    ) by {
                        let b1 = if i1 < i as int {
                            i1
                        } else {
                            i1 + 1
                        };
                        assert(self.pending@[i1] == pre[b1]);
                        assert(pre[b1]@ != pre[i as int]@) by {
                            if b1 != i as int && pre[b1]@ == pre[i as int]@ {
                                assert(false);
                            }
                        }
                    }
                }
                true
            },
            None => {
                proof {
                    if old(self).is_pending(rid@) {
                        let j = choose|j: int|
                            0 <= j < pre.len() && (#[trigger] old(self).pending_seq()[j])@
                                == rid@;
                        assert(self.pending@[j]@ == rid@);
                    }
                    assert forall|r: Seq<u8>| #[trigger]
                        self.is_pending(r) implies (old(self).is_pending(r) && r != rid@) by {
                        let j = choose|j: int|
                            0 <= j < self.pending_seq().len() && (#[trigger] self.pending_seq(
                            )[j])@ == r;
                        assert(old(self).pending_seq()[j]@ == r);
                        if r == rid@ {
                            assert(self.pending@[j]@ == rid@);
                        }
                    }
                    assert forall|r: Seq<u8>|
                        old(self).is_pending(r) && r != rid@ implies #[trigger] self.is_pending(
                        r,
                    ) by {
                        let j = choose|j: int|
                            0 <= j < pre.len() && (#[trigger] old(self).pending_seq()[j])@ == r;
                        assert(self.pending_seq()[j]@ == r);
                    }
                }
                false
            },
        }
    }
}

} // verus!
