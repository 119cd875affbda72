//! The handler registry: for each kind-name, at most one slot per side
//! (request or notification), each slot either a callback the dispatcher
//! invokes or a polling queue the application drains. The closures and
//! queues themselves live with the event loop's surroundings; the registry
//! holds what the dispatcher decides by.

use vstd::prelude::*;

use crate::util::bytes_eq;

verus! {

/// What serves a kind: a callback (blocking applies to notifications
/// only), or a polling queue.
#[derive(PartialEq, Eq, Structural, Clone, Copy, Debug)]
pub enum HandlerKind {
    Callback { blocking: bool },
    Polling,
}

/// A name has a slot in a slot list.
pub open spec fn table_has(s: Seq<(Vec<u8>, HandlerKind)>, name: Seq<u8>) -> bool {
    exists|i: int| 0 <= i < s.len() && (#[trigger] s[i]).0@ == name
}

/// The slot a name holds in a slot list.
pub open spec fn table_kind(s: Seq<(Vec<u8>, HandlerKind)>, name: Seq<u8>) -> HandlerKind {
    let i = choose|i: int| 0 <= i < s.len() && (#[trigger] s[i]).0@ == name;
    s[i].1
}

/// One side of the registry: the request slots, or the notification slots.
pub struct SlotTable {
    slots: Vec<(Vec<u8>, HandlerKind)>,
}

impl SlotTable {
    /// The slots, in registration order.
    pub closed spec fn slots_seq(&self) -> Seq<(Vec<u8>, HandlerKind)> {
        self.slots@
    }

    /// A kind-name is taken.
    pub open spec fn has_slot(&self, name: Seq<u8>) -> bool {
        table_has(self.slots_seq(), name)
    }

    /// The slot under a taken kind-name.
    pub open spec fn kind_of(&self, name: Seq<u8>) -> HandlerKind {
        table_kind(self.slots_seq(), name)
    }

    /// No kind-name twice: at most one slot per name on this side.
    pub closed spec fn wf(&self) -> bool {
        forall|i: int, j: int|
            0 <= i < j < self.slots@.len() ==> (#[trigger] self.slots@[i]).0@ != (
            #[trigger] self.slots@[j]).0@
    }

    /// The well-formedness restated for callers: one slot per kind-name.
    pub proof fn lemma_at_most_one_slot(&self)
        requires
            self.wf(),
        ensures
            forall|i: int, j: int|
                0 <= i < j < self.slots_seq().len() ==> (#[trigger] self.slots_seq()[i]).0@ != (
                #[trigger] self.slots_seq()[j]).0@,
    {
    }

    pub fn new() -> (r: Self)
        ensures
            r.wf(),
            forall|n: Seq<u8>| !r.has_slot(n),
    {
        SlotTable { slots: Vec::new() }
    }

    fn find(&self, name: &Vec<u8>) -> (r: Option<usize>)
        ensures
            match r {
                Some(i) => i < self.slots@.len() && self.slots@[i as int].0@ == name@,
                None => forall|j: int|
                    0 <= j < self.slots@.len() ==> (#[trigger] self.slots@[j]).0@ != name@,
            },
    {
        let n = self.slots.len();
        let mut i: usize = 0;
        while i < n
            invariant
                n == self.slots@.len(),
                0 <= i <= n,
                forall|j: int| 0 <= j < i ==> (#[trigger] self.slots@[j]).0@ != name@,
            decreases n - i,
        {
            if bytes_eq(&self.slots[i].0, name) {
                return Some(i);
            }
            i += 1;
        }
        None
    }

    /// The slot serving a kind-name, if any.
    pub fn get(&self, name: &Vec<u8>) -> (r: Option<HandlerKind>)
        requires
            self.wf(),
        ensures
            r == if self.has_slot(name@) {
                Some(self.kind_of(name@))
            } else {
                None::<HandlerKind>
            },
    {
        match self.find(name) {
            Some(i) => {
                proof {
                    let j = choose|j: int|
                        0 <= j < self.slots@.len() && (#[trigger] self.slots@[j]).0@ == name@;
                    if j != i as int {
                        assert(self.slots@[j].0@ == self.slots@[i as int].0@);
                    }
                }
                Some(self.slots[i].1)
            },
            None => None,
        }
    }

    /// Take a free kind-name; an occupied one is left alone and refused.
    pub fn register(&mut self, name: Vec<u8>, kind: HandlerKind) -> (ok: bool)
        requires
            old(self).wf(),
        ensures
            final(self).wf(),
            ok == !old(self).has_slot(name@),
            !ok ==> *final(self) == *old(self),
            ok ==> final(self).slots_seq() == old(self).slots_seq().push((name, kind)),
            forall|n: Seq<u8>|
                #[trigger] final(self).has_slot(n) <==> (old(self).has_slot(n) || (ok && n
                    == name@)),
            forall|n: Seq<u8>|
                old(self).has_slot(n) ==> #[trigger] final(self).kind_of(n) == old(self).kind_of(
                    n,
                ),
            ok ==> final(self).kind_of(name@) == kind,
    {
        let ghost pre = self.slots@;
        match self.find(&name) {
            Some(_) => {
                proof {
                    assert(table_has(pre, name@));
                }
                false
            },
            None => {
                let ghost nm = name@;
                self.slots.push((name, kind));
                proof {
                    assert(self.slots@[pre.len() as int].0@ == nm);
                    assert forall|n: Seq<u8>| #[trigger]
                        table_has(self.slots@, n) <==> (table_has(pre, n) || n == nm) by {
                        if table_has(pre, n) {
                            let j = choose|j: int|
                                0 <= j < pre.len() && (#[trigger] pre[j]).0@ == n;
                            assert(self.slots@[j].0@ == n);
                        }
                        if table_has(self.slots@, n) {
                            let j = choose|j: int|
                                0 <= j < self.slots@.len() && (#[trigger] self.slots@[j]).0@ == n;
                            if j < pre.len() {
                                assert(pre[j].0@ == n);
                            }
                        }
                    }
                    assert forall|n: Seq<u8>|
                        table_has(pre, n) implies #[trigger] table_kind(self.slots@, n)
                        == table_kind(pre, n) by {
                        let j = choose|j: int| 0 <= j < pre.len() && (#[trigger] pre[j]).0@ == n;
                        let j2 = choose|j2: int|
                            0 <= j2 < self.slots@.len() && (#[trigger] self.slots@[j2]).0@ == n;
                        assert(self.slots@[j].0@ == n);
                        if j2 != j {
                            if j2 < pre.len() {
                                assert(pre[j2].0@ == pre[j].0@);
                            } else {
                                assert(!table_has(pre, n));
                            }
                        }
                    }
                    assert(table_has(self.slots@, nm));
                    let j2 = choose|j2: int|
                        0 <= j2 < self.slots@.len() && (#[trigger] self.slots@[j2]).0@ == nm;
                    if j2 != pre.len() {
                        assert(pre[j2].0@ == nm);
                        assert(table_has(pre, nm));
                    }
                    assert(table_kind(self.slots@, nm) == kind);
                }
                true
            },
        }
    }

    /// Free a kind-name; freeing a free one changes nothing.
    pub fn unregister(&mut self, name: &Vec<u8>)
        requires
            old(self).wf(),
        ensures
            final(self).wf(),
            forall|n: Seq<u8>|
                #[trigger] final(self).has_slot(n) <==> (old(self).has_slot(n) && n != name@),
            forall|n: Seq<u8>|
                old(self).has_slot(n) && n != name@ ==> #[trigger] final(self).kind_of(n) == old(
                    self,
                ).kind_of(n),
    {
        let ghost pre = self.slots@;
        match self.find(name) {
            Some(i) => {
                self.slots.remove(i);
                proof {
                    assert(self.slots@ =~= pre.remove(i as int));
                    assert forall|j1: int, j2: int|
                        0 <= j1 < j2 < self.slots@.len() implies (#[trigger] self.slots@[j1]).0@
                        != (#[trigger] self.slots@[j2]).0@ by {
                        let b1 = if j1 < i as int {
                            j1
                        } else {
                            j1 + 1
                        };
                        let b2 = if j2 < i as int {
                            j2
                        } else {
                            j2 + 1
                        };
                        assert(self.slots@[j1] == pre[b1] && self.slots@[j2] == pre[b2]);
                    }
                    assert forall|n: Seq<u8>| #[trigger]
                        table_has(self.slots@, n) <==> (table_has(pre, n) && n != name@) by {
                        if table_has(self.slots@, n) {
                            let j = choose|j: int|
                                0 <= j < self.slots@.len() && (#[trigger] self.slots@[j]).0@ == n;
                            let b = if j < i as int {
                                j
                            } else {
                                j + 1
                            };
                            assert(pre[b].0@ == n);
                            if n == name@ {
                                assert(pre[b].0@ == pre[i as int].0@);
                            }
                        }
                        if table_has(pre, n) && n != name@ {
                            let j = choose|j: int|
                                0 <= j < pre.len() && (#[trigger] pre[j]).0@ == n;
                            assert(j != i as int);
                            let b = if j < i as int {
                                j
                            } else {
                                j - 1
                            };
                            assert(self.slots@[b].0@ == n);
                        }
                    }
                    assert forall|n: Seq<u8>|
                        table_has(pre, n) && n != name@ implies #[trigger] table_kind(
                        self.slots@,
                        n,
                    ) == table_kind(pre, n) by {
                        let j = choose|j: int| 0 <= j < pre.len() && (#[trigger] pre[j]).0@ == n;
                        assert(j != i as int);
                        let b = if j < i as int {
                            j
                        } else {
                            j - 1
                        };
                        assert(self.slots@[b].0@ == n);
                        let j2 = choose|j2: int|
                            0 <= j2 < self.slots@.len() && (#[trigger] self.slots@[j2]).0@ == n;
                        if j2 != b {
                            let b2 = if j2 < i as int {
                                j2
                            } else {
                                j2 + 1
                            };
                            assert(pre[b2].0@ == pre[j].0@);
                            assert(b2 == j);
                        }
                        let bj = if j < i as int {
                            j
                        } else {
                            j - 1
                        };
                        assert(self.slots@[bj].1 == pre[j].1);
                    }
                }
            },
            None => {
                proof {
                    assert forall|n: Seq<u8>| #[trigger]
                        table_has(self.slots@, n) <==> (table_has(pre, n) && n != name@) by {
                        if table_has(pre, n) && n == name@ {
                            let j = choose|j: int|
                                0 <= j < pre.len() && (#[trigger] pre[j]).0@ == n;
                        }
                    }
                }
            },
        }
    }
}

} // verus!
