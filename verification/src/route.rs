//! The per-destination routing table: for every reachable address, the set
//! of ways to get there (`Via`) with their round-trip times, a cached
//! minimum / second-best summary, and an inverse index answering "which
//! destinations currently route through x?". Mutations report the route
//! events the internal route protocol turns into notifications.

use vstd::prelude::*;

use crate::Address;
use crate::kv::{distinct_keys, lemma_to_map_contains, lemma_to_map_index, lemma_to_map_len,
    lemma_to_map_push, lemma_to_map_remove, lemma_to_map_update, to_map};

verus! {

/// How a destination is reached: over the local transport (`Direct`), or by
/// handing the frame to an intermediate endpoint that forwards it.
#[derive(PartialEq, Eq, Structural, Clone, Copy, Debug, Hash)]
pub enum Via {
    Address(Address),
    Direct,
}

impl Via {
    /// The intermediate endpoint, if this is not a direct link.
    pub fn as_address(&self) -> (r: Option<Address>)
        ensures
            r == match *self {
                Via::Address(a) => Some(a),
                Via::Direct => None,
            },
    {
        match self {
            Via::Address(a) => Some(*a),
            Via::Direct => None,
        }
    }
}

/// Round-trip time estimate in milliseconds; the path cost.
#[derive(PartialOrd, Ord, PartialEq, Eq, Structural, Clone, Copy, Debug, Hash)]
pub struct Rtt(pub u32);

/// Cached summary of one destination's routes: the least-cost via, its
/// cost, and the least cost over the remaining vias if there are any.
#[derive(PartialEq, Eq, Clone, Copy, Debug)]
pub struct MinRtt {
    pub via: Via,
    pub rtt: Rtt,
    pub second_best: Option<Rtt>,
}

/// The cached minimum of a destination changed.
#[derive(PartialEq, Clone, Copy, Debug)]
pub struct MinRttUpdated {
    pub for_address: Address,
    pub rtt: MinRtt,
    /// The minimum's via or cost differs from before.
    pub first_changed: bool,
    /// The second-best cost differs from before (a change of the minimum's
    /// via also counts).
    pub second_changed: bool,
}

/// A destination that had exactly one via gained a second one.
#[derive(PartialEq, Clone, Copy, Debug)]
pub struct ViaListSeconded {
    pub for_connection: Address,
    pub initial_via: Via,
    pub added_via: Via,
    pub rtt: Rtt,
}

/// A destination is back down to exactly one via.
#[derive(PartialEq, Clone, Copy, Debug)]
pub struct ViaListUnseconded {
    pub for_connection: Address,
    pub only_via: Via,
}

/// A destination became reachable at all.
#[derive(PartialEq, Clone, Copy, Debug)]
pub struct ConnectionAdded {
    pub to: Address,
    pub via: Via,
    pub rtt: Rtt,
}

/// A destination became unreachable.
#[derive(PartialEq, Clone, Copy, Debug)]
pub struct ConnectionRemoved {
    pub to: Address,
    pub via: Via,
}

/// What a route-set mutation reports back to the event loop.
#[derive(PartialEq, Clone, Copy, Debug)]
pub enum RouteEvent {
    MinRttUpdated(MinRttUpdated),
    ViaListSeconded(ViaListSeconded),
    ViaListUnseconded(ViaListUnseconded),
    ConnectionAdded(ConnectionAdded),
    ConnectionRemoved(ConnectionRemoved),
}

/// The index of the first entry with the least cost.
pub open spec fn argmin_first(s: Seq<(Via, Rtt)>) -> int
    decreases s.len(),
{
    if s.len() <= 1 {
        0
    } else {
        let r = 1 + argmin_first(s.drop_first());
        if s[0].1.0 <= s[r].1.0 {
            0
        } else {
            r
        }
    }
}

/// The least cost occurring in the list.
pub open spec fn rtts_min(s: Seq<(Via, Rtt)>) -> u32
    decreases s.len(),
{
    if s.len() <= 1 {
        s[0].1.0
    } else {
        let m = rtts_min(s.drop_first());
        if s[0].1.0 <= m {
            s[0].1.0
        } else {
            m
        }
    }
}

/// The summary a via list gives rise to: first-encountered least-cost via,
/// and the least cost over the other entries when there are at least two.
pub open spec fn spec_min(s: Seq<(Via, Rtt)>) -> MinRtt {
    let i = argmin_first(s);
    MinRtt {
        via: s[i].0,
        rtt: s[i].1,
        second_best: if s.len() <= 1 {
            None
        } else {
            Some(Rtt(rtts_min(s.remove(i))))
        },
    }
}

/// `argmin_first` names the first index attaining the minimum.
pub proof fn lemma_argmin_first_char(s: Seq<(Via, Rtt)>)
    requires
        s.len() >= 1,
    ensures
        0 <= argmin_first(s) < s.len(),
        forall|j: int| 0 <= j < s.len() ==> (#[trigger] s[j]).1.0 >= s[argmin_first(s)].1.0,
        forall|j: int| 0 <= j < argmin_first(s) ==> (#[trigger] s[j]).1.0 > s[argmin_first(s)].1.0,
    decreases s.len(),
{
    if s.len() > 1 {
        let t = s.drop_first();
        lemma_argmin_first_char(t);
        assert(forall|k: int| 1 <= k < s.len() ==> (#[trigger] s[k]) == t[k - 1]);
        let r = 1 + argmin_first(t);
        assert(s[r] == t[r - 1]);
        assert(forall|j: int| 1 <= j < s.len() ==> (#[trigger] s[j]).1.0 >= s[r].1.0);
    }
}

/// `rtts_min` names the least cost: a lower bound that is attained.
pub proof fn lemma_rtts_min_char(s: Seq<(Via, Rtt)>)
    requires
        s.len() >= 1,
    ensures
        forall|j: int| 0 <= j < s.len() ==> (#[trigger] s[j]).1.0 >= rtts_min(s),
        exists|j: int| 0 <= j < s.len() && (#[trigger] s[j]).1.0 == rtts_min(s),
    decreases s.len(),
{
    if s.len() > 1 {
        let t = s.drop_first();
        lemma_rtts_min_char(t);
        assert(forall|k: int| 1 <= k < s.len() ==> (#[trigger] s[k]) == t[k - 1]);
        let j = choose|j: int| 0 <= j < t.len() && (#[trigger] t[j]).1.0 == rtts_min(t);
        if s[0].1.0 <= rtts_min(t) {
            assert(s[0].1.0 == rtts_min(s));
        } else {
            assert(s[j + 1] == t[j]);
            assert(s[j + 1].1.0 == rtts_min(s));
        }
    } else {
        assert(s[0].1.0 == rtts_min(s));
    }
}

/// The routes of one destination: its via list, never empty while the
/// record exists, and the cached summary.
pub struct AddressData {
    via_rtt: Vec<(Via, Rtt)>,
    min_rtt: MinRtt,
}

impl AddressData {
    /// The mapping this record stands for.
    pub closed spec fn view(&self) -> Map<Via, Rtt> {
        to_map(self.via_rtt@)
    }

    /// The record's raw via list, in first-encountered order.
    pub closed spec fn vias_seq(&self) -> Seq<(Via, Rtt)> {
        self.via_rtt@
    }

    /// The cached summary.
    pub closed spec fn min(&self) -> MinRtt {
        self.min_rtt
    }

    /// At least one via, no via twice, and the summary is exactly what the
    /// list gives rise to.
    pub closed spec fn wf(&self) -> bool {
        &&& self.via_rtt@.len() >= 1
        &&& distinct_keys(self.via_rtt@)
        &&& self.min_rtt == spec_min(self.via_rtt@)
    }

    /// Recompute the cached summary after the via list changed; report the
    /// change, if any, as the event the neighbors will hear about.
    fn update_min_rtt(&mut self, for_address: Address) -> (ev: Option<MinRttUpdated>)
        requires
            old(self).vias_seq().len() >= 1,
            distinct_keys(old(self).vias_seq()),
        ensures
            final(self).vias_seq() == old(self).vias_seq(),
            final(self).wf(),
            ev == spec_min_update(old(self).min(), spec_min(old(self).vias_seq()), for_address),
    {
        let new = compute_min(&self.via_rtt);
        let unchanged = self.min_rtt.via == new.via && self.min_rtt.rtt.0 == new.rtt.0
            && opt_rtt_eq(&self.min_rtt.second_best, &new.second_best);
        if unchanged {
            return None;
        }
        let first_changed = self.min_rtt.rtt.0 != new.rtt.0 || self.min_rtt.via != new.via;
        let second_changed = !opt_rtt_eq(&self.min_rtt.second_best, &new.second_best)
            || self.min_rtt.via != new.via;
        self.min_rtt = new;
        Some(MinRttUpdated { for_address, rtt: new, first_changed, second_changed })
    }
}

/// The event a change of the cached summary gives rise to: none when the
/// summary is unchanged, else which of its two components differ.
pub open spec fn spec_min_update(old_min: MinRtt, new_min: MinRtt, for_address: Address) -> Option<
    MinRttUpdated,
> {
    if new_min == old_min {
        None
    } else {
        Some(
            MinRttUpdated {
                for_address,
                rtt: new_min,
                first_changed: old_min.rtt != new_min.rtt || old_min.via != new_min.via,
                second_changed: old_min.second_best != new_min.second_best || old_min.via
                    != new_min.via,
            },
        )
    }
}

fn opt_rtt_eq(a: &Option<Rtt>, b: &Option<Rtt>) -> (r: bool)
    ensures
        r == (*a == *b),
{
    match (a, b) {
        (None, None) => true,
        (Some(x), Some(y)) => x.0 == y.0,
        _ => false,
    }
}

/// One pass for the first least-cost entry, one for the least cost among
/// the rest.
fn compute_min(list: &Vec<(Via, Rtt)>) -> (m: MinRtt)
    requires
        list@.len() >= 1,
        distinct_keys(list@),
    ensures
        m == spec_min(list@),
{
    let s = Ghost(list@);
    let mut best: usize = 0;
    let mut i: usize = 1;
    while i < list.len()
        invariant
            s@ == list@,
            s@.len() >= 1,
            0 <= best < i <= s@.len(),
            forall|j: int| 0 <= j < i ==> (#[trigger] s@[j]).1.0 >= s@[best as int].1.0,
            forall|j: int| 0 <= j < best ==> (#[trigger] s@[j]).1.0 > s@[best as int].1.0,
        decreases s@.len() - i,
    {
        if list[i].1.0 < list[best].1.0 {
            best = i;
        }
        i += 1;
    }
    proof {
        lemma_argmin_first_char(s@);
        let am = argmin_first(s@);
        if best as int != am {
            if (best as int) < am {
                assert(s@[best as int].1.0 > s@[am].1.0);
                assert(s@[am].1.0 >= s@[best as int].1.0);
            } else {
                assert(s@[am].1.0 > s@[best as int].1.0);
                assert(s@[best as int].1.0 >= s@[am].1.0);
            }
        }
        assert(best as int == argmin_first(s@));
    }
    if list.len() == 1 {
        return MinRtt { via: list[0].0, rtt: list[0].1, second_best: None };
    }
    let mut second: Option<u32> = None;
    let mut i: usize = 0;
    while i < list.len()
        invariant
            s@ == list@,
            0 <= i <= s@.len(),
            best < s@.len(),
            match second {
                None => i <= 1 && (i == 1 ==> best == 0),
                Some(m) => {
                    &&& exists|j: int|
                        0 <= j < i && j != best && (#[trigger] s@[j]).1.0 == m
                    &&& forall|j: int|
                        0 <= j < i && j != best ==> (#[trigger] s@[j]).1.0 >= m
                },
            },
        decreases s@.len() - i,
    {
        if i != best {
            let r = list[i].1.0;
            second = match second {
                None => Some(r),
                Some(m) => if r < m {
                    Some(r)
                } else {
                    Some(m)
                },
            };
        }
        i += 1;
    }
    let sb = match second {
        Some(m) => m,
        // with two entries some index differs from `best`, so the pass found one
        None => 0,
    };
    proof {
        assert(second == Some(sb));
        let t = s@.remove(best as int);
        lemma_rtts_min_char(t);
        assert(forall|k: int| 0 <= k < best ==> (#[trigger] t[k]) == s@[k]);
        assert(forall|k: int| best <= k < t.len() ==> (#[trigger] t[k]) == s@[k + 1]);
        let m = sb;
        let j = choose|j: int| 0 <= j < s@.len() && j != best && (#[trigger] s@[j]).1.0 == m;
        if j < best {
            assert(t[j].1.0 == m);
        } else {
            assert(t[j - 1].1.0 == m);
        }
        let k = choose|k: int| 0 <= k < t.len() && (#[trigger] t[k]).1.0 == rtts_min(t);
        if k < best {
            assert(s@[k].1.0 == rtts_min(t));
        } else {
            assert(s@[k + 1].1.0 == rtts_min(t));
        }
        assert(m == rtts_min(t));
    }
    MinRtt { via: list[best].0, rtt: list[best].1, second_best: Some(Rtt(sb)) }
}

/// The inverse index: for each via, which destinations currently route
/// through it. Kept in exact lock-step with the forward table.
pub struct InverseRouteSet {
    vias: Vec<(Via, Vec<Address>)>,
}

/// Some destination `to` routes through `via`, per an inverse-index list.
pub open spec fn inv_contains(s: Seq<(Via, Vec<Address>)>, via: Via, to: Address) -> bool {
    exists|i: int| 0 <= i < s.len() && (#[trigger] s[i]).0 == via && s[i].1@.contains(to)
}

impl InverseRouteSet {
    /// Some destination `to` routes through `via`.
    pub closed spec fn contains_route(&self, via: Via, to: Address) -> bool {
        inv_contains(self.vias@, via, to)
    }

    /// Each via listed once, with a nonempty duplicate-free destination list.
    pub closed spec fn wf(&self) -> bool {
        &&& distinct_keys(self.vias@)
        &&& forall|i: int|
            0 <= i < self.vias@.len() ==> {
                let dests = (#[trigger] self.vias@[i]).1@;
                &&& dests.len() >= 1
                &&& forall|k: int, l: int| 0 <= k < l < dests.len() ==> dests[k] != dests[l]
            }
    }

    pub fn new() -> (r: Self)
        ensures
            r.wf(),
            forall|v: Via, a: Address| !r.contains_route(v, a),
    {
        InverseRouteSet { vias: Vec::new() }
    }

    /// Record that `to` now routes through `via`.
    pub fn inc(&mut self, via: Via, to: Address)
        requires
            old(self).wf(),
            !old(self).contains_route(via, to),
        ensures
            final(self).wf(),
            forall|v: Via, a: Address|
                #[trigger] final(self).contains_route(v, a) <==> (old(self).contains_route(v, a)
                    || (v == via && a == to)),
    {
        let ghost pre = self.vias@;
        proof {
            assert(pre == old(self).vias@);
            assert(!inv_contains(pre, via, to));
        }
        let n = self.vias.len();
        let mut i: usize = 0;
        while i < n
            invariant
                self.vias@ == pre,
                pre == old(self).vias@,
                n == pre.len(),
                0 <= i <= n,
                !inv_contains(pre, via, to),
                distinct_keys(pre),
                forall|j: int|
                    0 <= j < pre.len() ==> {
                        let dests = (#[trigger] pre[j]).1@;
                        &&& dests.len() >= 1
                        &&& forall|k: int, l: int| 0 <= k < l < dests.len() ==> dests[k] != dests[l]
                    },
                forall|j: int| 0 <= j < i ==> (#[trigger] pre[j]).0 != via,
            decreases n - i,
        {
            if self.vias[i].0 == via {
                proof {
                    assert(pre[i as int].0 == via);
                    assert(!pre[i as int].1@.contains(to)) by {
                        if pre[i as int].1@.contains(to) {
                            assert(inv_contains(pre, via, to));
                        }
                    }
                }
                let entry = &mut self.vias[i].1;
                entry.push(to);
                proof {
                    assert(self.vias@ =~= pre.update(
                        i as int,
                        (pre[i as int].0, self.vias@[i as int].1),
                    ));
                    assert(self.vias@[i as int].1@ == pre[i as int].1@.push(to));
                    assert(distinct_keys(self.vias@));
                    assert forall|j: int| 0 <= j < self.vias@.len() implies {
                        let dests = (#[trigger] self.vias@[j]).1@;
                        &&& dests.len() >= 1
                        &&& forall|k: int, l: int| 0 <= k < l < dests.len() ==> dests[k] != dests[l]
                    } by {
                        if j != i as int {
                            assert(self.vias@[j] == pre[j]);
                        } else {
                            let dests = self.vias@[j].1@;
                            let prev = pre[j].1@;
                            assert(forall|k: int| 0 <= k < prev.len() ==> prev[k] != to);
                            assert forall|k: int, l: int|
                                0 <= k < l < dests.len() implies dests[k] != dests[l] by {
                                if l == dests.len() - 1 {
                                    assert(dests[k] == prev[k]);
                                    assert(dests[l] == to);
                                } else {
                                    assert(dests[k] == prev[k] && dests[l] == prev[l]);
                                }
                            }
                        }
                    }
                    assert forall|v: Via, a: Address| #[trigger]
                        inv_contains(self.vias@, v, a) <==> (inv_contains(pre, v, a) || (v == via
                        && a == to)) by {
                        if inv_contains(pre, v, a) {
                            let j = choose|j: int|
                                0 <= j < pre.len() && (#[trigger] pre[j]).0 == v
                                    && pre[j].1@.contains(a);
                            let k = choose|k: int| 0 <= k < pre[j].1@.len() && pre[j].1@[k] == a;
                            assert(self.vias@[j].1@[k] == a);
                            assert(self.vias@[j].0 == v && self.vias@[j].1@.contains(a));
                        }
                        if v == via && a == to {
                            let d = self.vias@[i as int].1@;
                            assert(d[d.len() - 1] == to);
                            assert(self.vias@[i as int].0 == via && d.contains(to));
                        }
                        if inv_contains(self.vias@, v, a) {
                            let j = choose|j: int|
                                0 <= j < self.vias@.len() && (#[trigger] self.vias@[j]).0 == v
                                    && self.vias@[j].1@.contains(a);
                            let k = choose|k: int|
                                0 <= k < self.vias@[j].1@.len() && self.vias@[j].1@[k] == a;
                            if j == i as int {
                                if k < pre[j].1@.len() {
                                    assert(pre[j].1@[k] == a);
                                    assert(pre[j].0 == v && pre[j].1@.contains(a));
                                } else {
                                    assert(a == to && v == via);
                                }
                            } else {
                                assert(pre[j].1@[k] == a);
                                assert(pre[j].0 == v && pre[j].1@.contains(a));
                            }
                        }
                    }
                }
                return ;
            }
            i += 1;
        }
        let mut dests: Vec<Address> = Vec::new();
        dests.push(to);
        self.vias.push((via, dests));
        proof {
            assert forall|v: Via, a: Address| #[trigger]
                inv_contains(self.vias@, v, a) <==> (inv_contains(pre, v, a) || (v == via && a
                == to)) by {
                if inv_contains(pre, v, a) {
                    let j = choose|j: int|
                        0 <= j < pre.len() && (#[trigger] pre[j]).0 == v && pre[j].1@.contains(a);
                    let k = choose|k: int| 0 <= k < pre[j].1@.len() && pre[j].1@[k] == a;
                    assert(self.vias@[j] == pre[j]);
                    assert(self.vias@[j].0 == v && self.vias@[j].1@.contains(a));
                }
                if v == via && a == to {
                    assert(self.vias@[pre.len() as int].0 == via);
                    assert(self.vias@[pre.len() as int].1@[0] == to);
                    assert(self.vias@[pre.len() as int].1@.contains(to));
                }
                if inv_contains(self.vias@, v, a) {
                    let j = choose|j: int|
                        0 <= j < self.vias@.len() && (#[trigger] self.vias@[j]).0 == v
                            && self.vias@[j].1@.contains(a);
                    let k = choose|k: int|
                        0 <= k < self.vias@[j].1@.len() && self.vias@[j].1@[k] == a;
                    if j < pre.len() {
                        assert(pre[j] == self.vias@[j]);
                        assert(pre[j].0 == v && pre[j].1@.contains(a));
                    } else {
                        assert(self.vias@[j].1@.len() == 1);
                        assert(a == to && v == via);
                    }
                }
            }
        }
    }

    /// Forget that `to` routes through `via`.
    pub fn dec(&mut self, via: Via, to: Address)
        requires
            old(self).wf(),
            old(self).contains_route(via, to),
        ensures
            final(self).wf(),
            forall|v: Via, a: Address|
                #[trigger] final(self).contains_route(v, a) <==> (old(self).contains_route(v, a)
                    && !(v == via && a == to)),
    {
        let ghost pre = self.vias@;
        let n = self.vias.len();
        let mut i: usize = 0;
        while i < n
            invariant
                self.vias@ == pre,
                pre == old(self).vias@,
                old(self).wf(),
                old(self).contains_route(via, to),
                n == pre.len(),
                0 <= i <= n,
                forall|j: int| 0 <= j < i ==> (#[trigger] pre[j]).0 != via,
            decreases n - i,
        {
            if self.vias[i].0 == via {
                let ghost inner = pre[i as int].1@;
                let m = self.vias[i].1.len();
                let mut k: usize = 0;
                while k < m
                    invariant
                        self.vias@ == pre,
                        pre == old(self).vias@,
                        old(self).wf(),
                        old(self).contains_route(via, to),
                        0 <= i < pre.len(),
                        pre[i as int].0 == via,
                        inner == pre[i as int].1@,
                        m == inner.len(),
                        0 <= k <= m,
                        forall|j: int| 0 <= j < k ==> inner[j] != to,
                    decreases m - k,
                {
                    if self.vias[i].1[k] == to {
                        self.remove_at(via, to, i, k);
                        return ;
                    }
                    k += 1;
                }
                proof {
                    let j = choose|j: int|
                        0 <= j < pre.len() && (#[trigger] pre[j]).0 == via
                            && pre[j].1@.contains(to);
                    assert(j == i as int) by {
                        if j != i as int {
                            assert(pre[j].0 == pre[i as int].0);
                        }
                    }
                    let l = choose|l: int| 0 <= l < inner.len() && inner[l] == to;
                    assert(false);
                }
                return ;
            }
            i += 1;
        }
        proof {
            let j = choose|j: int|
                0 <= j < pre.len() && (#[trigger] pre[j]).0 == via && pre[j].1@.contains(to);
            assert(false);
        }
    }

    /// Remove the destination at position `k` of the entry at position `i`,
    /// dropping the entry when its list empties.
    fn remove_at(&mut self, via: Via, to: Address, i: usize, k: usize)
        requires
            old(self).wf(),
            i < old(self).vias@.len(),
            old(self).vias@[i as int].0 == via,
            k < old(self).vias@[i as int].1@.len(),
            old(self).vias@[i as int].1@[k as int] == to,
        ensures
            final(self).wf(),
            forall|v: Via, a: Address|
                #[trigger] final(self).contains_route(v, a) <==> (old(self).contains_route(v, a)
                    && !(v == via && a == to)),
    {
        let ghost pre = self.vias@;
        let ghost inner = pre[i as int].1@;
        let entry = &mut self.vias[i].1;
        entry.remove(k);
        let now_empty = entry.len() == 0;
        proof {
            assert(self.vias@ =~= pre.update(i as int, (via, self.vias@[i as int].1)));
            assert(self.vias@[i as int].1@ == inner.remove(k as int));
        }
        if now_empty {
            self.vias.remove(i);
            proof {
                assert(self.vias@ =~= pre.remove(i as int));
                assert(inner =~= seq![to]);
                assert forall|v: Via, a: Address| #[trigger]
                    inv_contains(self.vias@, v, a) <==> (inv_contains(pre, v, a) && !(v == via && a
                    == to)) by {
                    if inv_contains(self.vias@, v, a) {
                        let j = choose|j: int|
                            0 <= j < self.vias@.len() && (#[trigger] self.vias@[j]).0 == v
                                && self.vias@[j].1@.contains(a);
                        let jj = if j < i as int {
                            j
                        } else {
                            j + 1
                        };
                        assert(pre[jj] == self.vias@[j]);
                        assert(inv_contains(pre, v, a));
                        if v == via && a == to {
                            assert(jj == i as int) by {
                                if jj != i as int {
                                    assert(pre[jj].0 == pre[i as int].0);
                                }
                            }
                            assert(false);
                        }
                    }
                    if inv_contains(pre, v, a) && !(v == via && a == to) {
                        let j = choose|j: int|
                            0 <= j < pre.len() && (#[trigger] pre[j]).0 == v
                                && pre[j].1@.contains(a);
                        if j == i as int {
                            let l = choose|l: int| 0 <= l < inner.len() && inner[l] == a;
                            assert(a == to && v == via);
                            assert(false);
                        } else {
                            let jj = if j < i as int {
                                j
                            } else {
                                j - 1
                            };
                            assert(self.vias@[jj] == pre[j]);
                        }
                    }
                }
            }
        } else {
            proof {
                let d = self.vias@[i as int].1@;
                assert(forall|l: int, l2: int| 0 <= l < l2 < inner.len() ==> inner[l] != inner[l2]);
                assert forall|l: int, l2: int| 0 <= l < l2 < d.len() implies d[l] != d[l2] by {
                    let bl = if l < k as int {
                        l
                    } else {
                        l + 1
                    };
                    let bl2 = if l2 < k as int {
                        l2
                    } else {
                        l2 + 1
                    };
                    assert(d[l] == inner[bl] && d[l2] == inner[bl2]);
                }
                assert forall|v: Via, a: Address| #[trigger]
                    inv_contains(self.vias@, v, a) <==> (inv_contains(pre, v, a) && !(v == via && a
                    == to)) by {
                    if inv_contains(self.vias@, v, a) {
                        let j = choose|j: int|
                            0 <= j < self.vias@.len() && (#[trigger] self.vias@[j]).0 == v
                                && self.vias@[j].1@.contains(a);
                        let l = choose|l: int|
                            0 <= l < self.vias@[j].1@.len() && self.vias@[j].1@[l] == a;
                        if j == i as int {
                            let bl = if l < k as int {
                                l
                            } else {
                                l + 1
                            };
                            assert(inner[bl] == a);
                            assert(pre[j].1@.contains(a));
                            assert(inv_contains(pre, v, a));
                            if v == via && a == to {
                                assert(inner[k as int] == to);
                                assert(false);
                            }
                        } else {
                            assert(pre[j] == self.vias@[j]);
                            assert(inv_contains(pre, v, a));
                            if v == via && a == to {
                                assert(pre[j].0 == pre[i as int].0);
                                assert(false);
                            }
                        }
                    }
                    if inv_contains(pre, v, a) && !(v == via && a == to) {
                        let j = choose|j: int|
                            0 <= j < pre.len() && (#[trigger] pre[j]).0 == v
                                && pre[j].1@.contains(a);
                        let l = choose|l: int| 0 <= l < pre[j].1@.len() && pre[j].1@[l] == a;
                        if j == i as int {
                            assert(a != to) by {
                                if a == to {
                                    assert(v == via);
                                }
                            }
                            assert(l != k as int);
                            let bl = if l < k as int {
                                l
                            } else {
                                l - 1
                            };
                            assert(self.vias@[j].1@[bl] == a);
                            assert(self.vias@[j].1@.contains(a));
                        } else {
                            assert(self.vias@[j] == pre[j]);
                        }
                    }
                }
            }
        }
    }

    /// The destinations currently routed through `via`, if any.
    pub fn forwarded(&self, via: Via) -> (r: Option<Vec<Address>>)
        requires
            self.wf(),
        ensures
            match r {
                None => forall|a: Address| !self.contains_route(via, a),
                Some(v) => {
                    &&& v@.len() >= 1
                    &&& forall|k: int, l: int| 0 <= k < l < v@.len() ==> v@[k] != v@[l]
                    &&& forall|a: Address|
                        #[trigger] v@.contains(a) <==> self.contains_route(via, a)
                },
            },
    {
        let n = self.vias.len();
        let mut i: usize = 0;
        while i < n
            invariant
                self.wf(),
                n == self.vias@.len(),
                0 <= i <= n,
                forall|j: int| 0 <= j < i ==> (#[trigger] self.vias@[j]).0 != via,
            decreases n - i,
        {
            if self.vias[i].0 == via {
                let src = &self.vias[i].1;
                let mut out: Vec<Address> = Vec::new();
                let m = src.len();
                let mut k: usize = 0;
                while k < m
                    invariant
                        m == src@.len(),
                        0 <= k <= m,
                        out@ == src@.take(k as int),
                    decreases m - k,
                {
                    out.push(src[k]);
                    proof {
                        assert(out@ =~= src@.take(k as int + 1));
                    }
                    k += 1;
                }
                proof {
                    assert(out@ =~= src@);
                    assert forall|a: Address|
                        #[trigger] out@.contains(a) <==> self.contains_route(via, a) by {
                        if out@.contains(a) {
                            assert(inv_contains(self.vias@, via, a));
                        }
                        if inv_contains(self.vias@, via, a) {
                            let j = choose|j: int|
                                0 <= j < self.vias@.len() && (#[trigger] self.vias@[j]).0 == via
                                    && self.vias@[j].1@.contains(a);
                            assert(j == i as int) by {
                                if j != i as int {
                                    assert(self.vias@[j].0 == self.vias@[i as int].0);
                                }
                            }
                        }
                    }
                }
                return Some(out);
            }
            i += 1;
        }
        proof {
            assert forall|a: Address| !self.contains_route(via, a) by {
                if inv_contains(self.vias@, via, a) {
                    let j = choose|j: int|
                        0 <= j < self.vias@.len() && (#[trigger] self.vias@[j]).0 == via
                            && self.vias@[j].1@.contains(a);
                }
            }
        }
        None
    }
}

/// The routing table: a record per reachable destination, plus the inverse
/// index, kept in exact lock-step.
pub struct RouteSet {
    routes: Vec<(Address, AddressData)>,
    inverse: InverseRouteSet,
}

impl RouteSet {
    /// The via list recorded for `a`, in first-encountered order; empty
    /// when `a` has no record.
    pub closed spec fn vias_list(&self, a: Address) -> Seq<(Via, Rtt)> {
        if exists|i: int| 0 <= i < self.routes@.len() && (#[trigger] self.routes@[i]).0 == a {
            let i = choose|i: int|
                0 <= i < self.routes@.len() && (#[trigger] self.routes@[i]).0 == a;
            self.routes@[i].1.vias_seq()
        } else {
            Seq::empty()
        }
    }

    /// A destination is known while it has at least one via.
    pub open spec fn has_spec(&self, a: Address) -> bool {
        self.vias_list(a).len() > 0
    }

    /// The via-to-cost mapping recorded for `a`.
    pub open spec fn vias_of(&self, a: Address) -> Map<Via, Rtt> {
        to_map(self.vias_list(a))
    }

    /// The cached summary for `a`; meaningful only while `a` is known.
    pub closed spec fn min_of(&self, a: Address) -> MinRtt {
        let i = choose|i: int| 0 <= i < self.routes@.len() && (#[trigger] self.routes@[i]).0 == a;
        self.routes@[i].1.min()
    }

    /// Destination `a` currently routes through `v`.
    pub open spec fn routes_via(&self, a: Address, v: Via) -> bool {
        self.vias_of(a).contains_key(v)
    }

    /// The whole table as a map of maps.
    pub open spec fn view(&self) -> Map<Address, Map<Via, Rtt>> {
        Map::new(|a: Address| self.has_spec(a), |a: Address| self.vias_of(a))
    }

    /// Every record is sound, and forward table and inverse index agree
    /// exactly: `(dest, via)` recorded forward if and only if `dest` is in
    /// the inverse entry of `via`.
    pub closed spec fn wf(&self) -> bool {
        &&& distinct_keys(self.routes@)
        &&& forall|i: int| 0 <= i < self.routes@.len() ==> (#[trigger] self.routes@[i]).1.wf()
        &&& self.inverse.wf()
        &&& forall|a: Address, v: Via|
            #![trigger self.routes_via(a, v)]
            #![trigger self.inverse.contains_route(v, a)]
            self.routes_via(a, v) <==> self.inverse.contains_route(v, a)
    }

    /// With distinct keys, the record at index `i` is the one the spec
    /// accessors of its address speak about.
    proof fn lemma_at(&self, i: int)
        requires
            distinct_keys(self.routes@),
            0 <= i < self.routes@.len(),
        ensures
            self.vias_list(self.routes@[i].0) == self.routes@[i].1.vias_seq(),
            self.min_of(self.routes@[i].0) == self.routes@[i].1.min(),
    {
        let a = self.routes@[i].0;
        let j = choose|j: int| 0 <= j < self.routes@.len() && (#[trigger] self.routes@[j]).0 == a;
        if j != i {
            assert(self.routes@[j].0 == self.routes@[i].0);
        }
    }

    /// An address without a record has no vias.
    proof fn lemma_absent(&self, a: Address)
        requires
            forall|i: int| 0 <= i < self.routes@.len() ==> (#[trigger] self.routes@[i]).0 != a,
        ensures
            self.vias_list(a) == Seq::<(Via, Rtt)>::empty(),
            !self.has_spec(a),
    {
        if exists|i: int| 0 <= i < self.routes@.len() && (#[trigger] self.routes@[i]).0 == a {
            let i = choose|i: int|
                0 <= i < self.routes@.len() && (#[trigger] self.routes@[i]).0 == a;
            assert(false);
        }
    }

    /// The record index for `a`, when `a` has one.
    fn find_route(&self, a: Address) -> (r: Option<usize>)
        requires
            distinct_keys(self.routes@),
        ensures
            match r {
                Some(i) => i < self.routes@.len() && self.routes@[i as int].0 == a
                    && self.vias_list(a) == self.routes@[i as int].1.vias_seq() && self.min_of(a)
                    == self.routes@[i as int].1.min(),
                None => !self.has_spec(a) && self.vias_list(a) == Seq::<(Via, Rtt)>::empty(),
            },
    {
        let n = self.routes.len();
        let mut i: usize = 0;
        while i < n
            invariant
                distinct_keys(self.routes@),
                n == self.routes@.len(),
                0 <= i <= n,
                forall|j: int| 0 <= j < i ==> (#[trigger] self.routes@[j]).0 != a,
            decreases n - i,
        {
            if self.routes[i].0 == a {
                proof {
                    self.lemma_at(i as int);
                }
                return Some(i);
            }
            i += 1;
        }
        proof {
            self.lemma_absent(a);
        }
        None
    }

    pub fn new() -> (r: Self)
        ensures
            r.wf(),
            forall|a: Address| !(#[trigger] r.has_spec(a)),
            r@ == Map::<Address, Map<Via, Rtt>>::empty(),
    {
        let r = RouteSet { routes: Vec::new(), inverse: InverseRouteSet::new() };
        proof {
            assert forall|a: Address| !(#[trigger] r.has_spec(a)) by {
                r.lemma_absent(a);
            }
            assert forall|a: Address, v: Via| #[trigger]
                r.routes_via(a, v) <==> r.inverse.contains_route(v, a) by {
                r.lemma_absent(a);
                lemma_to_map_contains(r.vias_list(a), v);
            }
            assert(r@ =~= Map::<Address, Map<Via, Rtt>>::empty());
        }
        r
    }

    /// Whether any route to `address` is known.
    pub fn has(&self, address: Address) -> (r: bool)
        requires
            self.wf(),
        ensures
            r == self.has_spec(address),
    {
        match self.find_route(address) {
            Some(i) => {
                proof {
                    assert(self.routes@[i as int].1.wf());
                }
                true
            },
            None => false,
        }
    }

    /// Every known destination with its cached summary.
    pub fn list(&self) -> (r: Vec<(Address, MinRtt)>)
        requires
            self.wf(),
        ensures
            forall|k: int|
                0 <= k < r@.len() ==> {
                    &&& (#[trigger] r@[k]).1 == self.min_of(r@[k].0)
                    &&& self.has_spec(r@[k].0)
                },
            forall|k: int, l: int| 0 <= k < l < r@.len() ==> (#[trigger] r@[k]).0 != (#[trigger] r@[l]).0,
            forall|a: Address| #[trigger] self.has_spec(a) ==> exists|k: int|
                0 <= k < r@.len() && (#[trigger] r@[k]).0 == a,
    {
        let n = self.routes.len();
        let mut r: Vec<(Address, MinRtt)> = Vec::new();
        let mut i: usize = 0;
        while i < n
            invariant
                self.wf(),
                n == self.routes@.len(),
                0 <= i <= n,
                r@.len() == i,
                forall|k: int| 0 <= k < i ==> (#[trigger] r@[k]).0 == self.routes@[k].0
                    && r@[k].1 == self.routes@[k].1.min(),
            decreases n - i,
        {
            r.push((self.routes[i].0, self.routes[i].1.min_rtt));
            i += 1;
        }
        proof {
            assert forall|k: int|
                0 <= k < r@.len() implies ((#[trigger] r@[k]).1 == self.min_of(r@[k].0)
                && self.has_spec(r@[k].0)) by {
                self.lemma_at(k);
                assert(self.routes@[k].1.wf());
            }
            assert forall|a: Address| #[trigger] self.has_spec(a) implies exists|k: int|
                0 <= k < r@.len() && (#[trigger] r@[k]).0 == a by {
                if self.has_spec(a) {
                    if forall|i: int|
                        0 <= i < self.routes@.len() ==> (#[trigger] self.routes@[i]).0 != a {
                        self.lemma_absent(a);
                    }
                    let i = choose|i: int|
                        0 <= i < self.routes@.len() && (#[trigger] self.routes@[i]).0 == a;
                    assert(r@[i].0 == a);
                }
            }
        }
        r
    }

    /// The anti-loop provenance check: a frame claiming to come from
    /// `sender` may arrive over `forwarder` only if `forwarder` is
    /// `sender`'s own link, or a via recorded for `sender`.
    pub fn may_be_forwarder_for(&self, forwarder: Via, sender: Address) -> (r: bool)
        requires
            self.wf(),
        ensures
            r == (forwarder == Via::Address(sender) || self.vias_of(sender).contains_key(
                forwarder,
            )),
    {
        let direct_from_sender = match forwarder.as_address() {
            Some(a) => a == sender,
            None => false,
        };
        if direct_from_sender {
            return true;
        }
        match self.find_route(sender) {
            Some(i) => {
                let r = find_via(&self.routes[i].1.via_rtt, forwarder).is_some();
                proof {
                    lemma_to_map_contains(self.vias_list(sender), forwarder);
                }
                r
            },
            None => {
                proof {
                    lemma_to_map_contains(self.vias_list(sender), forwarder);
                }
                false
            },
        }
    }

    /// The next hop for `address`: its own link when one is open, else the
    /// least-cost via outside the blacklist.
    pub fn forwarder_for(&self, address: Address, blacklist: &Vec<Via>) -> (r: Option<Via>)
        requires
            self.wf(),
        ensures
            self.vias_of(address).contains_key(Via::Direct) ==> r == Some(Via::Direct),
            match r {
                Some(v) => self.vias_of(address).contains_key(v) && (v == Via::Direct || (
                !blacklist@.contains(v) && forall|w: Via|
                    #[trigger] self.vias_of(address).contains_key(w) && !blacklist@.contains(w)
                        ==> self.vias_of(address)[w].0 >= self.vias_of(address)[v].0)),
                None => forall|w: Via|
                    #[trigger] self.vias_of(address).contains_key(w) ==> blacklist@.contains(w),
            },
    {
        let i = match self.find_route(address) {
            Some(i) => i,
            None => {
                proof {
                    assert forall|w: Via|
                        #[trigger] self.vias_of(address).contains_key(w) implies blacklist@.contains(
                        w,
                    ) by {
                        lemma_to_map_contains(self.vias_list(address), w);
                    }
                }
                return None;
            },
        };
        let list = &self.routes[i].1.via_rtt;
        let ghost s = self.vias_list(address);
        if find_via(list, Via::Direct).is_some() {
            proof {
                lemma_to_map_contains(s, Via::Direct);
            }
            return Some(Via::Direct);
        }
        proof {
            lemma_to_map_contains(s, Via::Direct);
        }
        let n = list.len();
        let mut bestv: Option<Via> = None;
        let ghost mut besti: int = 0;
        let mut bestr: u32 = 0;
        let mut k: usize = 0;
        while k < n
            invariant
                self.wf(),
                i < self.routes@.len(),
                list == self.routes@[i as int].1.via_rtt,
                s == list@,
                n == s.len(),
                0 <= k <= n,
                match bestv {
                    None => forall|j: int| 0 <= j < k ==> blacklist@.contains((#[trigger] s[j]).0),
                    Some(v) => {
                        &&& 0 <= besti < k
                        &&& s[besti] == (v, Rtt(bestr))
                        &&& !blacklist@.contains(v)
                        &&& forall|j: int|
                            0 <= j < k && !blacklist@.contains((#[trigger] s[j]).0) ==> s[j].1.0
                                >= bestr
                    },
                },
            decreases n - k,
        {
            if !via_in(blacklist, list[k].0) {
                let better = match bestv {
                    None => true,
                    Some(_) => list[k].1.0 < bestr,
                };
                if better {
                    bestv = Some(list[k].0);
                    bestr = list[k].1.0;
                    proof {
                        besti = k as int;
                    }
                }
            }
            k += 1;
        }
        proof {
            match bestv {
                None => {
                    assert forall|w: Via|
                        #[trigger] to_map(s).contains_key(w) implies blacklist@.contains(w) by {
                        lemma_to_map_contains(s, w);
                        let j = choose|j: int| 0 <= j < s.len() && (#[trigger] s[j]).0 == w;
                    }
                },
                Some(v) => {
                    assert(self.routes@[i as int].1.wf());
                    lemma_to_map_contains(s, v);
                    assert(to_map(s).contains_key(v));
                    assert forall|w: Via|
                        #[trigger] to_map(s).contains_key(w) && !blacklist@.contains(w) implies
                        to_map(s)[w].0 >= to_map(s)[v].0 by {
                        lemma_to_map_contains(s, w);
                        let j = choose|j: int| 0 <= j < s.len() && (#[trigger] s[j]).0 == w;
                        lemma_to_map_index(s, j);
                        lemma_to_map_index(s, besti);
                        assert(s[j].1.0 >= bestr);
                    }
                },
            }
        }
        bestv
    }

    /// Record a route to `address` through `via` at cost `rtt`. A pair
    /// that is already recorded is left alone — the cost is not
    /// overwritten.
    #[verifier::rlimit(60)]
    pub fn inc(&mut self, address: Address, via: Via, rtt: Rtt) -> (ev: Vec<RouteEvent>)
        requires
            old(self).wf(),
        ensures
            final(self).wf(),
            final(self)@ == route_inc_map(old(self)@, address, via, rtt),
            others_unchanged(*old(self), *final(self), address),
            old(self).vias_of(address).contains_key(via) ==> *final(self) == *old(self),
            !old(self).vias_of(address).contains_key(via) ==> final(self).vias_list(address)
                == old(self).vias_list(address).push((via, rtt)),
            ev@ == spec_inc_events(*old(self), *final(self), address, via, rtt),
    {
        let ghost pre = *old(self);
        let mut ev: Vec<RouteEvent> = Vec::new();
        match self.find_route(address) {
            None => {
                proof {
                    lemma_to_map_contains(pre.vias_list(address), via);
                    assert(!pre.routes_via(address, via));
                }
                let mut list: Vec<(Via, Rtt)> = Vec::new();
                list.push((via, rtt));
                let min = MinRtt { via, rtt, second_best: None };
                proof {
                    assert(list@ == seq![(via, rtt)]);
                    assert(spec_min(list@) == min);
                }
                let data = AddressData { via_rtt: list, min_rtt: min };
                let ghost mid_routes = pre.routes@.push((address, data));
                self.routes.push((address, data));
                ev.push(RouteEvent::ConnectionAdded(ConnectionAdded { to: address, via, rtt }));
                self.inverse.inc(via, address);
                proof {
                    assert(self.routes@ == mid_routes);
                    assert(distinct_keys(self.routes@)) by {
                        assert(forall|j: int|
                            0 <= j < pre.routes@.len() ==> (#[trigger] pre.routes@[j]).0
                                != address);
                        assert(forall|j: int|
                            0 <= j < pre.routes@.len() ==> self.routes@[j] == pre.routes@[j]);
                    }
                    self.lemma_at(pre.routes@.len() as int);
                    assert(self.vias_list(address) == seq![(via, rtt)]);
                    assert(self.min_of(address) == min);
                    lemma_to_map_push(Seq::<(Via, Rtt)>::empty(), via, rtt);
                    assert(self.vias_of(address) == Map::<Via, Rtt>::empty().insert(via, rtt));
                    Self::lemma_conclude_others(pre, *self, address, pre.routes@.len() as int);
                    assert forall|i: int|
                        0 <= i < self.routes@.len() implies (#[trigger] self.routes@[i]).1.wf() by {
                        if i < pre.routes@.len() {
                            assert(self.routes@[i] == pre.routes@[i]);
                        }
                    }
                    assert forall|a2: Address, v2: Via|
                        #![trigger self.routes_via(a2, v2)]
                        #![trigger self.inverse.contains_route(v2, a2)]
                        self.routes_via(a2, v2) <==> self.inverse.contains_route(v2, a2) by {
                        lemma_to_map_contains(self.vias_list(a2), v2);
                        lemma_to_map_contains(pre.vias_list(a2), v2);
                        if a2 != address {
                            assert(self.vias_list(a2) == pre.vias_list(a2));
                        }
                        assert(pre.routes_via(a2, v2) <==> pre.inverse.contains_route(v2, a2));
                    }
                    assert(self@ =~= route_inc_map(pre@, address, via, rtt)) by {
                        assert(!pre@.contains_key(address)) by {
                            assert(!pre.has_spec(address));
                        }
                        assert forall|b: Address| #[trigger] self@.contains_key(b) <==> route_inc_map(
                            pre@,
                            address,
                            via,
                            rtt,
                        ).contains_key(b) by {
                            if b != address {
                                assert(self.vias_list(b) == pre.vias_list(b));
                            }
                        }
                        assert forall|b: Address| self@.contains_key(b) implies #[trigger] self@[b]
                            == route_inc_map(pre@, address, via, rtt)[b] by {
                            if b != address {
                                assert(self.vias_list(b) == pre.vias_list(b));
                            }
                        }
                    }
                    assert(ev@ =~= spec_inc_events(pre, *self, address, via, rtt));
                }
            },
            Some(i) => {
                match find_via(&self.routes[i].1.via_rtt, via) {
                    Some(_) => {
                        proof {
                            lemma_to_map_contains(pre.vias_list(address), via);
                            assert(pre.vias_of(address).contains_key(via));
                            assert(self@ =~= route_inc_map(pre@, address, via, rtt)) by {
                                assert(pre@.contains_key(address));
                                assert(pre@[address] == pre.vias_of(address));
                            }
                            assert(ev@ =~= spec_inc_events(pre, *self, address, via, rtt));
                            assert(others_unchanged(pre, *self, address));
                        }
                        return ev;
                    },
                    None => {},
                }
                proof {
                    lemma_to_map_contains(pre.vias_list(address), via);
                    assert(!pre.vias_of(address).contains_key(via));
                    assert(pre.routes@[i as int].1.wf());
                }
                let single = self.routes[i].1.via_rtt.len() == 1;
                if single {
                    let initial = self.routes[i].1.via_rtt[0];
                    proof {
                        assert(initial == pre.vias_list(address)[0]);
                        assert(pre.min_of(address) == spec_min(pre.vias_list(address)));
                        assert(pre.min_of(address).via == initial.0);
                        assert(pre.min_of(address).rtt == initial.1);
                    }
                    let m = if rtt.0 <= initial.1.0 {
                        rtt
                    } else {
                        initial.1
                    };
                    ev.push(
                        RouteEvent::ViaListSeconded(
                            ViaListSeconded {
                                for_connection: address,
                                initial_via: initial.0,
                                added_via: via,
                                rtt: m,
                            },
                        ),
                    );
                }
                let d = &mut self.routes[i].1;
                d.via_rtt.push((via, rtt));
                let upd = d.update_min_rtt(address);
                if let Some(u) = upd {
                    ev.push(RouteEvent::MinRttUpdated(u));
                }
                proof {
                    assert(self.routes@ =~= pre.routes@.update(
                        i as int,
                        (address, self.routes@[i as int].1),
                    ));
                    assert(self.routes@[i as int].1.vias_seq() == pre.vias_list(address).push(
                        (via, rtt),
                    ));
                    assert(self.routes@[i as int].1.wf());
                    self.lemma_at(i as int);
                    assert(self.vias_list(address) == pre.vias_list(address).push((via, rtt)));
                }
                self.inverse.inc(via, address);
                proof {
                    self.lemma_at(i as int);
                    lemma_to_map_push(pre.vias_list(address), via, rtt);
                    assert(self.vias_of(address) == pre.vias_of(address).insert(via, rtt));
                    assert(distinct_keys(self.routes@));
                    Self::lemma_conclude_others(pre, *self, address, i as int);
                    assert forall|j: int|
                        0 <= j < self.routes@.len() implies (#[trigger] self.routes@[j]).1.wf() by {
                        if j != i as int {
                            assert(self.routes@[j] == pre.routes@[j]);
                        }
                    }
                    assert forall|a2: Address, v2: Via|
                        #![trigger self.routes_via(a2, v2)]
                        #![trigger self.inverse.contains_route(v2, a2)]
                        self.routes_via(a2, v2) <==> self.inverse.contains_route(v2, a2) by {
                        lemma_to_map_contains(self.vias_list(a2), v2);
                        lemma_to_map_contains(pre.vias_list(a2), v2);
                        if a2 != address {
                            assert(self.vias_list(a2) == pre.vias_list(a2));
                        }
                        assert(pre.routes_via(a2, v2) <==> pre.inverse.contains_route(v2, a2));
                    }
                    assert(self@ =~= route_inc_map(pre@, address, via, rtt)) by {
                        assert(pre@.contains_key(address));
                        assert(pre@[address] == pre.vias_of(address));
                        assert forall|b: Address| #[trigger] self@.contains_key(b) <==> route_inc_map(
                            pre@,
                            address,
                            via,
                            rtt,
                        ).contains_key(b) by {
                            if b != address {
                                assert(self.vias_list(b) == pre.vias_list(b));
                            }
                        }
                        assert forall|b: Address| self@.contains_key(b) implies #[trigger] self@[b]
                            == route_inc_map(pre@, address, via, rtt)[b] by {
                            if b != address {
                                assert(self.vias_list(b) == pre.vias_list(b));
                            }
                        }
                    }
                    assert(ev@ =~= spec_inc_events(pre, *self, address, via, rtt)) by {
                        lemma_to_map_len(pre.vias_list(address));
                    }
                }
            },
        }
        ev
    }

    /// A record untouched at every index but `i`, whose key is not `b`,
    /// leaves `b`'s accessors unchanged.
    proof fn lemma_same_at_other(&self, pre: RouteSet, b: Address, i: int)
        requires
            distinct_keys(self.routes@),
            distinct_keys(pre.routes@),
            0 <= i < self.routes@.len(),
            self.routes@.len() == pre.routes@.len() || self.routes@.len() == pre.routes@.len()
                + 1,
            self.routes@.len() == pre.routes@.len() + 1 ==> i == pre.routes@.len(),
            i < pre.routes@.len() ==> self.routes@[i].0 == pre.routes@[i].0,
            forall|j: int|
                0 <= j < pre.routes@.len() && j != i ==> #[trigger] self.routes@[j]
                    == pre.routes@[j],
            self.routes@[i].0 != b,
        ensures
            self.vias_list(b) == pre.vias_list(b),
            pre.has_spec(b) ==> self.min_of(b) == pre.min_of(b),
    {
        if exists|j: int| 0 <= j < pre.routes@.len() && (#[trigger] pre.routes@[j]).0 == b {
            let j = choose|j: int|
                0 <= j < pre.routes@.len() && (#[trigger] pre.routes@[j]).0 == b;
            pre.lemma_at(j);
            assert(self.routes@[j].0 == b);
            self.lemma_at(j);
        } else {
            pre.lemma_absent(b);
            assert forall|j: int|
                0 <= j < self.routes@.len() implies (#[trigger] self.routes@[j]).0 != b by {
                if j < pre.routes@.len() && j != i {
                    assert(self.routes@[j] == pre.routes@[j]);
                }
            }
            self.lemma_absent(b);
        }
    }

    /// Remove a route to `address` through `via`. The last via removes
    /// the record itself; an unknown pair is left alone.
    #[verifier::rlimit(60)]
    pub fn dec(&mut self, address: Address, via: Via) -> (ev: Vec<RouteEvent>)
        requires
            old(self).wf(),
        ensures
            final(self).wf(),
            final(self)@ == route_dec_map(old(self)@, address, via),
            others_unchanged(*old(self), *final(self), address),
            !old(self).vias_of(address).contains_key(via) ==> *final(self) == *old(self),
            old(self).vias_of(address).contains_key(via) ==> final(self).vias_list(address)
                == old(self).vias_list(address).remove(
                via_index(old(self).vias_list(address), via),
            ),
            ev@ == spec_dec_events(*old(self), *final(self), address, via),
    {
        let ghost pre = *old(self);
        let mut ev: Vec<RouteEvent> = Vec::new();
        let i = match self.find_route(address) {
            Some(i) => i,
            None => {
                proof {
                    lemma_to_map_contains(pre.vias_list(address), via);
                    assert(self@ =~= route_dec_map(pre@, address, via));
                    assert(ev@ =~= spec_dec_events(pre, *self, address, via));
                    assert(others_unchanged(pre, *self, address));
                }
                return ev;
            },
        };
        let k = match find_via(&self.routes[i].1.via_rtt, via) {
            Some(k) => k,
            None => {
                proof {
                    lemma_to_map_contains(pre.vias_list(address), via);
                    assert(pre@.contains_key(address));
                    assert(pre@[address] == pre.vias_of(address));
                    assert(self@ =~= route_dec_map(pre@, address, via));
                    assert(ev@ =~= spec_dec_events(pre, *self, address, via));
                    assert(others_unchanged(pre, *self, address));
                }
                return ev;
            },
        };
        proof {
            lemma_to_map_contains(pre.vias_list(address), via);
            assert(pre.vias_of(address).contains_key(via));
            assert(pre.routes@[i as int].1.wf());
            assert(k as int == via_index(pre.vias_list(address), via)) by {
                let j = via_index(pre.vias_list(address), via);
                assert(pre.vias_list(address)[k as int].0 == via);
                if j != k as int {
                    assert(pre.vias_list(address)[j].0 == pre.vias_list(address)[k as int].0);
                }
            }
            lemma_to_map_remove(pre.vias_list(address), k as int);
            lemma_to_map_len(pre.vias_list(address));
        }
        let d = &mut self.routes[i].1;
        d.via_rtt.remove(k);
        let emptied = d.via_rtt.len() == 0;
        if emptied {
            proof {
                assert(self.routes@ =~= pre.routes@.update(
                    i as int,
                    (address, self.routes@[i as int].1),
                ));
                assert(pre.vias_list(address).len() == 1);
            }
            self.routes.remove(i);
            ev.push(RouteEvent::ConnectionRemoved(ConnectionRemoved { to: address, via }));
            proof {
                assert(self.routes@ =~= pre.routes@.remove(i as int));
                assert(distinct_keys(self.routes@)) by {
                    assert forall|j1: int, j2: int|
                        0 <= j1 < j2 < self.routes@.len() implies (#[trigger] self.routes@[j1]).0
                        != (#[trigger] self.routes@[j2]).0 by {
                        let b1 = if j1 < i as int { j1 } else { j1 + 1 };
                        let b2 = if j2 < i as int { j2 } else { j2 + 1 };
                        assert(self.routes@[j1] == pre.routes@[b1]);
                        assert(self.routes@[j2] == pre.routes@[b2]);
                    }
                }
                assert forall|j: int|
                    0 <= j < self.routes@.len() implies (#[trigger] self.routes@[j]).1.wf() by {
                    let b = if j < i as int { j } else { j + 1 };
                    assert(self.routes@[j] == pre.routes@[b]);
                }
                assert forall|j: int|
                    0 <= j < self.routes@.len() implies (#[trigger] self.routes@[j]).0
                    != address by {
                    let b = if j < i as int { j } else { j + 1 };
                    assert(self.routes@[j] == pre.routes@[b]);
                    if self.routes@[j].0 == address {
                        assert(pre.routes@[b].0 == pre.routes@[i as int].0);
                    }
                }
            }
            self.inverse.dec(via, address);
            proof {
                self.lemma_absent(address);
                Self::lemma_conclude_others_removed(pre, *self, address, i as int);
                assert(pre.routes_via(address, via));
                assert(pre.inverse.contains_route(via, address));
                assert forall|a2: Address, v2: Via|
                    #![trigger self.routes_via(a2, v2)]
                    #![trigger self.inverse.contains_route(v2, a2)]
                    self.routes_via(a2, v2) <==> self.inverse.contains_route(v2, a2) by {
                    lemma_to_map_contains(self.vias_list(a2), v2);
                    lemma_to_map_contains(pre.vias_list(a2), v2);
                    if a2 != address {
                        assert(self.vias_list(a2) == pre.vias_list(a2));
                    } else {
                        assert(self.vias_list(address) == Seq::<(Via, Rtt)>::empty());
                        if pre.routes_via(address, v2) {
                            let j = choose|j: int|
                                0 <= j < pre.vias_list(address).len() && (#[trigger] pre.vias_list(
                                    address,
                                )[j]).0 == v2;
                            assert(j == 0);
                            assert(v2 == via);
                        }
                    }
                    assert(pre.routes_via(a2, v2) <==> pre.inverse.contains_route(v2, a2));
                }
                assert(self@ =~= route_dec_map(pre@, address, via)) by {
                    assert(pre@.contains_key(address));
                    assert(pre@[address] == pre.vias_of(address));
                    assert(pre@[address].dom().len() == 1);
                    assert forall|b: Address| #[trigger] self@.contains_key(b) <==> route_dec_map(
                        pre@,
                        address,
                        via,
                    ).contains_key(b) by {
                        if b != address {
                            assert(self.vias_list(b) == pre.vias_list(b));
                        }
                    }
                    assert forall|b: Address| self@.contains_key(b) implies #[trigger] self@[b]
                        == route_dec_map(pre@, address, via)[b] by {
                        if b != address {
                            assert(self.vias_list(b) == pre.vias_list(b));
                        }
                    }
                }
                assert(ev@ =~= spec_dec_events(pre, *self, address, via));
            }
        } else {
            let single_left = self.routes[i].1.via_rtt.len() == 1;
            if single_left {
                let only = self.routes[i].1.via_rtt[0].0;
                ev.push(
                    RouteEvent::ViaListUnseconded(
                        ViaListUnseconded { for_connection: address, only_via: only },
                    ),
                );
            }
            let d = &mut self.routes[i].1;
            let upd = d.update_min_rtt(address);
            if let Some(u) = upd {
                ev.push(RouteEvent::MinRttUpdated(u));
            }
            self.inverse.dec(via, address);
            proof {
                assert(self.routes@ =~= pre.routes@.update(
                    i as int,
                    (address, self.routes@[i as int].1),
                ));
                assert(self.routes@[i as int].1.vias_seq() == pre.vias_list(address).remove(
                    k as int,
                ));
                assert(distinct_keys(self.routes@));
                self.lemma_at(i as int);
                assert(self.vias_list(address) == pre.vias_list(address).remove(k as int));
                assert(self.vias_of(address) == pre.vias_of(address).remove(via));
                Self::lemma_conclude_others(pre, *self, address, i as int);
                assert forall|j: int|
                    0 <= j < self.routes@.len() implies (#[trigger] self.routes@[j]).1.wf() by {
                    if j != i as int {
                        assert(self.routes@[j] == pre.routes@[j]);
                    }
                }
                assert forall|a2: Address, v2: Via|
                    #![trigger self.routes_via(a2, v2)]
                    #![trigger self.inverse.contains_route(v2, a2)]
                    self.routes_via(a2, v2) <==> self.inverse.contains_route(v2, a2) by {
                    lemma_to_map_contains(self.vias_list(a2), v2);
                    lemma_to_map_contains(pre.vias_list(a2), v2);
                    if a2 != address {
                        assert(self.vias_list(a2) == pre.vias_list(a2));
                    }
                    assert(pre.routes_via(a2, v2) <==> pre.inverse.contains_route(v2, a2));
                }
                assert(self@ =~= route_dec_map(pre@, address, via)) by {
                    assert(pre@.contains_key(address));
                    assert(pre@[address] == pre.vias_of(address));
                    assert(pre@[address].dom().len() >= 2);
                    assert forall|b: Address| #[trigger] self@.contains_key(b) <==> route_dec_map(
                        pre@,
                        address,
                        via,
                    ).contains_key(b) by {
                        if b != address {
                            assert(self.vias_list(b) == pre.vias_list(b));
                        } else {
                            assert(self.vias_list(address).len() >= 1);
                        }
                    }
                    assert forall|b: Address| self@.contains_key(b) implies #[trigger] self@[b]
                        == route_dec_map(pre@, address, via)[b] by {
                        if b != address {
                            assert(self.vias_list(b) == pre.vias_list(b));
                        }
                    }
                }
                assert(ev@ =~= spec_dec_events(pre, *self, address, via)) by {
                    if pre.vias_list(address).len() == 2 {
                        assert(self.vias_list(address).len() == 1);
                        assert(self.min_of(address).via == self.vias_list(address)[0].0);
                    }
                }
            }
        }
        ev
    }

    /// Overwrite the cost of a recorded `(address, via)` pair; an unknown
    /// pair is left alone.
    #[verifier::rlimit(60)]
    pub fn update(&mut self, address: Address, via: Via, rtt: Rtt) -> (ev: Vec<RouteEvent>)
        requires
            old(self).wf(),
        ensures
            final(self).wf(),
            final(self)@ == route_update_map(old(self)@, address, via, rtt),
            others_unchanged(*old(self), *final(self), address),
            !old(self).vias_of(address).contains_key(via) ==> *final(self) == *old(self),
            old(self).vias_of(address).contains_key(via) ==> final(self).vias_list(address)
                == old(self).vias_list(address).update(
                via_index(old(self).vias_list(address), via),
                (via, rtt),
            ),
            ev@ == spec_update_events(*old(self), *final(self), address, via),
    {
        let ghost pre = *old(self);
        let mut ev: Vec<RouteEvent> = Vec::new();
        let i = match self.find_route(address) {
            Some(i) => i,
            None => {
                proof {
                    lemma_to_map_contains(pre.vias_list(address), via);
                    assert(self@ =~= route_update_map(pre@, address, via, rtt));
                    assert(ev@ =~= spec_update_events(pre, *self, address, via));
                    assert(others_unchanged(pre, *self, address));
                }
                return ev;
            },
        };
        let k = match find_via(&self.routes[i].1.via_rtt, via) {
            Some(k) => k,
            None => {
                proof {
                    lemma_to_map_contains(pre.vias_list(address), via);
                    assert(pre@.contains_key(address));
                    assert(pre@[address] == pre.vias_of(address));
                    assert(self@ =~= route_update_map(pre@, address, via, rtt));
                    assert(ev@ =~= spec_update_events(pre, *self, address, via));
                    assert(others_unchanged(pre, *self, address));
                }
                return ev;
            },
        };
        proof {
            lemma_to_map_contains(pre.vias_list(address), via);
            assert(pre.vias_of(address).contains_key(via));
            assert(pre.routes@[i as int].1.wf());
            assert(k as int == via_index(pre.vias_list(address), via)) by {
                let j = via_index(pre.vias_list(address), via);
                assert(pre.vias_list(address)[k as int].0 == via);
                if j != k as int {
                    assert(pre.vias_list(address)[j].0 == pre.vias_list(address)[k as int].0);
                }
            }
            lemma_to_map_update(pre.vias_list(address), k as int, rtt);
        }
        let d = &mut self.routes[i].1;
        let slot = &mut d.via_rtt[k];
        *slot = (via, rtt);
        let upd = d.update_min_rtt(address);
        if let Some(u) = upd {
            ev.push(RouteEvent::MinRttUpdated(u));
        }
        proof {
            assert(self.routes@ =~= pre.routes@.update(
                i as int,
                (address, self.routes@[i as int].1),
            ));
            assert(self.routes@[i as int].1.vias_seq() == pre.vias_list(address).update(
                k as int,
                (via, rtt),
            ));
            assert(distinct_keys(self.routes@));
            self.lemma_at(i as int);
            assert(self.vias_list(address) == pre.vias_list(address).update(k as int, (via, rtt)));
            assert(self.vias_of(address) == pre.vias_of(address).insert(via, rtt));
            Self::lemma_conclude_others(pre, *self, address, i as int);
            assert forall|j: int|
                0 <= j < self.routes@.len() implies (#[trigger] self.routes@[j]).1.wf() by {
                if j != i as int {
                    assert(self.routes@[j] == pre.routes@[j]);
                }
            }
            assert forall|a2: Address, v2: Via|
                #![trigger self.routes_via(a2, v2)]
                #![trigger self.inverse.contains_route(v2, a2)]
                self.routes_via(a2, v2) <==> self.inverse.contains_route(v2, a2) by {
                lemma_to_map_contains(self.vias_list(a2), v2);
                lemma_to_map_contains(pre.vias_list(a2), v2);
                if a2 != address {
                    assert(self.vias_list(a2) == pre.vias_list(a2));
                }
                assert(pre.routes_via(a2, v2) <==> pre.inverse.contains_route(v2, a2));
            }
            assert(self@ =~= route_update_map(pre@, address, via, rtt)) by {
                assert(pre@.contains_key(address));
                assert(pre@[address] == pre.vias_of(address));
                assert forall|b: Address| #[trigger] self@.contains_key(b) <==> route_update_map(
                    pre@,
                    address,
                    via,
                    rtt,
                ).contains_key(b) by {
                    if b != address {
                        assert(self.vias_list(b) == pre.vias_list(b));
                    }
                }
                assert forall|b: Address| self@.contains_key(b) implies #[trigger] self@[b]
                    == route_update_map(pre@, address, via, rtt)[b] by {
                    if b != address {
                        assert(self.vias_list(b) == pre.vias_list(b));
                    }
                }
            }
            assert(ev@ =~= spec_update_events(pre, *self, address, via));
        }
        ev
    }

    /// A direct transport to `address` opened: record its own link.
    pub fn on_add_direct_connection(&mut self, address: Address, rtt: Rtt) -> (ev: Vec<
        RouteEvent,
    >)
        requires
            old(self).wf(),
        ensures
            final(self).wf(),
            final(self)@ == route_inc_map(old(self)@, address, Via::Direct, rtt),
            others_unchanged(*old(self), *final(self), address),
            old(self).vias_of(address).contains_key(Via::Direct) ==> *final(self) == *old(self),
            !old(self).vias_of(address).contains_key(Via::Direct) ==> final(self).vias_list(
                address,
            ) == old(self).vias_list(address).push((Via::Direct, rtt)),
            ev@ == spec_inc_events(*old(self), *final(self), address, Via::Direct, rtt),
    {
        self.inc(address, Via::Direct, rtt)
    }

    /// The direct transport to `address` closed: forget its own link.
    pub fn on_remove_direct_connection(&mut self, address: Address) -> (ev: Vec<RouteEvent>)
        requires
            old(self).wf(),
        ensures
            final(self).wf(),
            final(self)@ == route_dec_map(old(self)@, address, Via::Direct),
            others_unchanged(*old(self), *final(self), address),
            !old(self).vias_of(address).contains_key(Via::Direct) ==> *final(self) == *old(self),
            old(self).vias_of(address).contains_key(Via::Direct) ==> final(self).vias_list(
                address,
            ) == old(self).vias_list(address).remove(
                via_index(old(self).vias_list(address), Via::Direct),
            ),
            ev@ == spec_dec_events(*old(self), *final(self), address, Via::Direct),
    {
        self.dec(address, Via::Direct)
    }

    /// Destination `to` is listed under `via` in the inverse index.
    pub closed spec fn inverse_contains(&self, via: Via, to: Address) -> bool {
        self.inverse.contains_route(via, to)
    }

    /// The forward table and the inverse index agree exactly: `(dest, via)`
    /// is recorded forward if and only if `dest` is in the inverse entry of
    /// `via`.
    pub proof fn lemma_inverse_lockstep(&self)
        requires
            self.wf(),
        ensures
            forall|a: Address, v: Via|
                #![trigger self.routes_via(a, v)]
                #![trigger self.inverse_contains(v, a)]
                self.routes_via(a, v) <==> self.inverse_contains(v, a),
    {
    }

    /// The cached summary of every known destination is truthful: its cost
    /// is the least recorded cost, its via attains it, and the second-best
    /// is the least cost over the other vias — absent exactly when there is
    /// only one.
    pub proof fn lemma_min_rtt_invariant(&self, a: Address)
        requires
            self.wf(),
            self.has_spec(a),
        ensures
            self.vias_of(a).contains_key(self.min_of(a).via),
            self.vias_of(a)[self.min_of(a).via] == self.min_of(a).rtt,
            forall|v: Via|
                #[trigger] self.vias_of(a).contains_key(v) ==> self.vias_of(a)[v].0 >= self.min_of(
                    a,
                ).rtt.0,
            match self.min_of(a).second_best {
                Some(sb) => {
                    &&& exists|v: Via|
                        #[trigger] self.vias_of(a).contains_key(v) && v != self.min_of(a).via
                            && self.vias_of(a)[v] == sb
                    &&& forall|v: Via|
                        #[trigger] self.vias_of(a).contains_key(v) && v != self.min_of(a).via
                            ==> self.vias_of(a)[v].0 >= sb.0
                },
                None => self.vias_of(a).dom().len() == 1,
            },
    {
        let s = self.vias_list(a);
        let j = choose|j: int| 0 <= j < self.routes@.len() && (#[trigger] self.routes@[j]).0 == a;
        assert(self.routes@[j].1.wf());
        assert(self.min_of(a) == spec_min(s));
        lemma_argmin_first_char(s);
        let am = argmin_first(s);
        lemma_to_map_index(s, am);
        lemma_to_map_len(s);
        assert forall|v: Via|
            #[trigger] self.vias_of(a).contains_key(v) implies self.vias_of(a)[v].0 >= self.min_of(
            a,
        ).rtt.0 by {
            lemma_to_map_contains(s, v);
            let jj = choose|jj: int| 0 <= jj < s.len() && (#[trigger] s[jj]).0 == v;
            lemma_to_map_index(s, jj);
        }
        match self.min_of(a).second_best {
            Some(sb) => {
                let t = s.remove(am);
                lemma_rtts_min_char(t);
                assert(forall|k: int| 0 <= k < am ==> (#[trigger] t[k]) == s[k]);
                assert(forall|k: int| am <= k < t.len() ==> (#[trigger] t[k]) == s[k + 1]);
                let kk = choose|kk: int| 0 <= kk < t.len() && (#[trigger] t[kk]).1.0 == rtts_min(t);
                let oi = if kk < am {
                    kk
                } else {
                    kk + 1
                };
                assert(s[oi] == t[kk]);
                lemma_to_map_index(s, oi);
                assert(s[oi].0 != self.min_of(a).via);
                assert(self.vias_of(a).contains_key(s[oi].0) && s[oi].0 != self.min_of(a).via
                    && self.vias_of(a)[s[oi].0] == sb);
                assert forall|v: Via|
                    #[trigger] self.vias_of(a).contains_key(v) && v != self.min_of(a).via implies
                    self.vias_of(a)[v].0 >= sb.0 by {
                    lemma_to_map_contains(s, v);
                    let jj = choose|jj: int| 0 <= jj < s.len() && (#[trigger] s[jj]).0 == v;
                    lemma_to_map_index(s, jj);
                    assert(jj != am);
                    let bk = if jj < am {
                        jj
                    } else {
                        jj - 1
                    };
                    assert(t[bk] == s[jj]);
                }
            },
            None => {},
        }
    }

    /// The destinations currently routing through `via`, if any.
    pub fn forwarded(&self, via: Via) -> (r: Option<Vec<Address>>)
        requires
            self.wf(),
        ensures
            match r {
                None => forall|a: Address| !(#[trigger] self.routes_via(a, via)),
                Some(v) => {
                    &&& v@.len() >= 1
                    &&& forall|k: int, l: int| 0 <= k < l < v@.len() ==> v@[k] != v@[l]
                    &&& forall|a: Address| #[trigger] v@.contains(a) <==> self.routes_via(a, via)
                },
            },
    {
        let r = self.inverse.forwarded(via);
        proof {
            match &r {
                None => {
                    assert forall|a: Address| !(#[trigger] self.routes_via(a, via)) by {
                        assert(self.routes_via(a, via) <==> self.inverse.contains_route(via, a));
                    }
                },
                Some(v) => {
                    assert forall|a: Address| #[trigger]
                        v@.contains(a) <==> self.routes_via(a, via) by {
                        assert(self.routes_via(a, via) <==> self.inverse.contains_route(via, a));
                    }
                },
            }
        }
        r
    }

    /// Package `lemma_same_at_other` over every other destination.
    proof fn lemma_conclude_others(pre: RouteSet, post: RouteSet, a: Address, i: int)
        requires
            distinct_keys(post.routes@),
            distinct_keys(pre.routes@),
            0 <= i < post.routes@.len(),
            post.routes@.len() == pre.routes@.len() || post.routes@.len() == pre.routes@.len()
                + 1,
            post.routes@.len() == pre.routes@.len() + 1 ==> i == pre.routes@.len(),
            i < pre.routes@.len() ==> post.routes@[i].0 == pre.routes@[i].0,
            forall|j: int|
                0 <= j < pre.routes@.len() && j != i ==> #[trigger] post.routes@[j]
                    == pre.routes@[j],
            post.routes@[i].0 == a,
        ensures
            others_unchanged(pre, post, a),
    {
        assert forall|b: Address|
            b != a implies #[trigger] post.vias_list(b) == pre.vias_list(b) && (pre.has_spec(b)
            ==> post.min_of(b) == pre.min_of(b)) by {
            post.lemma_same_at_other(pre, b, i);
        }
    }

    /// As `lemma_conclude_others`, when the record at index `i` was removed.
    proof fn lemma_conclude_others_removed(pre: RouteSet, post: RouteSet, a: Address, i: int)
        requires
            distinct_keys(post.routes@),
            distinct_keys(pre.routes@),
            0 <= i < pre.routes@.len(),
            post.routes@ == pre.routes@.remove(i),
            pre.routes@[i].0 == a,
        ensures
            others_unchanged(pre, post, a),
    {
        assert forall|b: Address|
            b != a implies #[trigger] post.vias_list(b) == pre.vias_list(b) && (pre.has_spec(b)
            ==> post.min_of(b) == pre.min_of(b)) by {
            if exists|j: int| 0 <= j < pre.routes@.len() && (#[trigger] pre.routes@[j]).0 == b {
                let j = choose|j: int|
                    0 <= j < pre.routes@.len() && (#[trigger] pre.routes@[j]).0 == b;
                pre.lemma_at(j);
                let jj = if j < i {
                    j
                } else {
                    j - 1
                };
                assert(post.routes@[jj] == pre.routes@[j]);
                post.lemma_at(jj);
            } else {
                pre.lemma_absent(b);
                assert forall|j: int|
                    0 <= j < post.routes@.len() implies (#[trigger] post.routes@[j]).0 != b by {
                    let bj = if j < i {
                        j
                    } else {
                        j + 1
                    };
                    assert(post.routes@[j] == pre.routes@[bj]);
                }
                post.lemma_absent(b);
            }
        }
    }
}

/// The events `update` reports: the summary change, if there is one.
pub open spec fn spec_update_events(pre: RouteSet, post: RouteSet, a: Address, v: Via) -> Seq<
    RouteEvent,
> {
    if !pre.vias_of(a).contains_key(v) {
        Seq::empty()
    } else {
        match spec_min_update(pre.min_of(a), post.min_of(a), a) {
            Some(u) => seq![RouteEvent::MinRttUpdated(u)],
            None => Seq::empty(),
        }
    }
}

/// The position of `v` in a via list; with distinct keys, the only one.
pub open spec fn via_index(s: Seq<(Via, Rtt)>, v: Via) -> int {
    choose|j: int| 0 <= j < s.len() && (#[trigger] s[j]).0 == v
}

/// Destinations other than `a` keep their record (and, while known, their
/// cached summary) exactly.
pub open spec fn others_unchanged(pre: RouteSet, post: RouteSet, a: Address) -> bool {
    forall|b: Address|
        b != a ==> #[trigger] post.vias_list(b) == pre.vias_list(b) && (pre.has_spec(b)
            ==> post.min_of(b) == pre.min_of(b))
}

/// What `inc` does to the table, as a map: a fresh destination gets a
/// one-entry record, a known `(destination, via)` pair is left alone, and
/// otherwise the via is added.
pub open spec fn route_inc_map(
    m: Map<Address, Map<Via, Rtt>>,
    a: Address,
    v: Via,
    r: Rtt,
) -> Map<Address, Map<Via, Rtt>> {
    if !m.contains_key(a) {
        m.insert(a, Map::empty().insert(v, r))
    } else if m[a].contains_key(v) {
        m
    } else {
        m.insert(a, m[a].insert(v, r))
    }
}

/// What `dec` does to the table, as a map: an unknown pair is left alone,
/// removing the last via drops the record, and otherwise the via goes.
pub open spec fn route_dec_map(
    m: Map<Address, Map<Via, Rtt>>,
    a: Address,
    v: Via,
) -> Map<Address, Map<Via, Rtt>> {
    if !m.contains_key(a) || !m[a].contains_key(v) {
        m
    } else if m[a].dom().len() <= 1 {
        m.remove(a)
    } else {
        m.insert(a, m[a].remove(v))
    }
}

/// What `update` does to the table, as a map: a known pair's cost is
/// overwritten, anything else is left alone.
pub open spec fn route_update_map(
    m: Map<Address, Map<Via, Rtt>>,
    a: Address,
    v: Via,
    r: Rtt,
) -> Map<Address, Map<Via, Rtt>> {
    if m.contains_key(a) && m[a].contains_key(v) {
        m.insert(a, m[a].insert(v, r))
    } else {
        m
    }
}

/// The events `inc` reports: `ConnectionAdded` for a fresh destination;
/// nothing for a duplicate; otherwise `ViaListSeconded` when the second via
/// arrives, then the summary change if there is one.
pub open spec fn spec_inc_events(
    pre: RouteSet,
    post: RouteSet,
    a: Address,
    v: Via,
    r: Rtt,
) -> Seq<RouteEvent> {
    if !pre.has_spec(a) {
        seq![RouteEvent::ConnectionAdded(ConnectionAdded { to: a, via: v, rtt: r })]
    } else if pre.vias_of(a).contains_key(v) {
        Seq::empty()
    } else {
        let seconded: Seq<RouteEvent> = if pre.vias_list(a).len() == 1 {
            seq![
                RouteEvent::ViaListSeconded(
                    ViaListSeconded {
                        for_connection: a,
                        initial_via: pre.min_of(a).via,
                        added_via: v,
                        rtt: if r.0 <= pre.min_of(a).rtt.0 {
                            r
                        } else {
                            pre.min_of(a).rtt
                        },
                    },
                ),
            ]
        } else {
            Seq::empty()
        };
        let minupd: Seq<RouteEvent> = match spec_min_update(pre.min_of(a), post.min_of(a), a) {
            Some(u) => seq![RouteEvent::MinRttUpdated(u)],
            None => Seq::empty(),
        };
        seconded + minupd
    }
}

/// The events `dec` reports: nothing for an unknown pair;
/// `ConnectionRemoved` when the record empties; otherwise
/// `ViaListUnseconded` when one via is left, then the summary change if
/// there is one.
pub open spec fn spec_dec_events(pre: RouteSet, post: RouteSet, a: Address, v: Via) -> Seq<
    RouteEvent,
> {
    if !pre.vias_of(a).contains_key(v) {
        Seq::empty()
    } else if pre.vias_list(a).len() == 1 {
        seq![RouteEvent::ConnectionRemoved(ConnectionRemoved { to: a, via: v })]
    } else {
        let unseconded: Seq<RouteEvent> = if pre.vias_list(a).len() == 2 {
            seq![
                RouteEvent::ViaListUnseconded(
                    ViaListUnseconded { for_connection: a, only_via: post.min_of(a).via },
                ),
            ]
        } else {
            Seq::empty()
        };
        let minupd: Seq<RouteEvent> = match spec_min_update(pre.min_of(a), post.min_of(a), a) {
            Some(u) => seq![RouteEvent::MinRttUpdated(u)],
            None => Seq::empty(),
        };
        unseconded + minupd
    }
}

/// An edit that touched only destination `a`, and only a via other than
/// the direct link, changes no destination's direct-link membership.
pub proof fn lemma_non_direct_edit(pre: RouteSet, post: RouteSet, a: Address, v: Via)
    requires
        (v != Via::Direct),
        pre.wf(),
        others_unchanged(pre, post, a),
        (post.vias_list(a) == pre.vias_list(a)) || (exists|r: Rtt|
            post.vias_list(a) == pre.vias_list(a).push((v, r))) || (pre.vias_of(
            a,
        ).contains_key(v) && post.vias_list(a) == pre.vias_list(a).remove(
            via_index(pre.vias_list(a), v),
        )) || (pre.vias_of(a).contains_key(v) && (exists|r: Rtt|
            post.vias_list(a) == pre.vias_list(a).update(
                via_index(pre.vias_list(a), v),
                (v, r),
            ))),
    ensures
        forall|b: Address|
            #[trigger] post.vias_of(b).contains_key(Via::Direct) == pre.vias_of(b).contains_key(
                Via::Direct,
            ),
{
    assert(distinct_keys(pre.vias_list(a))) by {
        if exists|i: int| 0 <= i < pre.routes@.len() && (#[trigger] pre.routes@[i]).0 == a {
            let i = choose|i: int|
                0 <= i < pre.routes@.len() && (#[trigger] pre.routes@[i]).0 == a;
            assert(pre.routes@[i].1.wf());
        }
    }
    let s = pre.vias_list(a);
    assert forall|b: Address|
        #[trigger] post.vias_of(b).contains_key(Via::Direct) == pre.vias_of(b).contains_key(
        Via::Direct,
    ) by {
        if b != a {
            assert(post.vias_list(b) == pre.vias_list(b));
        } else {
            if post.vias_list(a) == s {
            } else if exists|r: Rtt| post.vias_list(a) == s.push((v, r)) {
                let r = choose|r: Rtt| post.vias_list(a) == s.push((v, r));
                lemma_to_map_push(s, v, r);
            } else if pre.vias_of(a).contains_key(v) {
                lemma_to_map_contains(s, v);
                let i = via_index(s, v);
                assert(0 <= i < s.len() && s[i].0 == v);
                if post.vias_list(a) == s.remove(i) {
                    lemma_to_map_remove(s, i);
                } else {
                    let r = choose|r: Rtt| post.vias_list(a) == s.update(i, (v, r));
                    lemma_to_map_update(s, i, r);
                }
            }
        }
    }
}

/// What one removal does to route membership across the whole table: the
/// removed pair is gone, everything else stays.
pub proof fn lemma_dec_membership(pre: RouteSet, post: RouteSet, a: Address, v: Via)
    requires
        pre.wf(),
        others_unchanged(pre, post, a),
        (!pre.vias_of(a).contains_key(v) ==> post.vias_list(a) == pre.vias_list(a)),
        (pre.vias_of(a).contains_key(v) ==> post.vias_list(a) == pre.vias_list(a).remove(
            via_index(pre.vias_list(a), v),
        )),
    ensures
        forall|b: Address, w: Via|
            #[trigger] post.routes_via(b, w) <==> (pre.routes_via(b, w) && !(b == a && w == v)),
{
    assert(distinct_keys(pre.vias_list(a))) by {
        if exists|i: int| 0 <= i < pre.routes@.len() && (#[trigger] pre.routes@[i]).0 == a {
            let i = choose|i: int|
                0 <= i < pre.routes@.len() && (#[trigger] pre.routes@[i]).0 == a;
            assert(pre.routes@[i].1.wf());
        }
    }
    let s = pre.vias_list(a);
    assert forall|b: Address, w: Via|
        #[trigger] post.routes_via(b, w) <==> (pre.routes_via(b, w) && !(b == a && w == v)) by {
        if b != a {
            assert(post.vias_list(b) == pre.vias_list(b));
        } else {
            lemma_to_map_contains(s, v);
            if !pre.vias_of(a).contains_key(v) {
                if b == a && w == v {
                    assert(!pre.routes_via(b, w));
                }
            } else {
                let i = via_index(s, v);
                assert(0 <= i < s.len() && s[i].0 == v);
                lemma_to_map_remove(s, i);
                assert(post.vias_of(a) == pre.vias_of(a).remove(v));
            }
        }
    }
}

/// Adding a route and then removing it returns the table to its prior
/// state, provided the pair was not already recorded (for a recorded pair
/// the addition is a diagnosed no-op, and the removal then takes out the
/// pre-existing route).
pub proof fn lemma_inc_dec_roundtrip(m: Map<Address, Map<Via, Rtt>>, a: Address, v: Via, r: Rtt)
    requires
        !(m.contains_key(a) && m[a].contains_key(v)),
        forall|b: Address|
            #[trigger] m.contains_key(b) ==> m[b].dom().finite() && m[b].dom().len() >= 1,
    ensures
        route_dec_map(route_inc_map(m, a, v, r), a, v) == m,
{
    if !m.contains_key(a) {
        let m1 = m.insert(a, Map::<Via, Rtt>::empty().insert(v, r));
        assert(m1[a].dom() =~= Set::<Via>::empty().insert(v));
        assert(m1[a].dom().len() == 1);
        assert(route_dec_map(m1, a, v) =~= m);
    } else {
        let m1 = m.insert(a, m[a].insert(v, r));
        assert(m1[a].dom() =~= m[a].dom().insert(v));
        assert(m1[a].dom().len() == m[a].dom().len() + 1);
        assert(m1[a].remove(v) =~= m[a]);
        assert(route_dec_map(m1, a, v) =~= m);
    }
}

/// For a destination never seen before, the addition and the removal
/// report the paired `ConnectionAdded` / `ConnectionRemoved` events.
pub proof fn lemma_inc_dec_paired_events(
    pre: RouteSet,
    mid: RouteSet,
    post: RouteSet,
    a: Address,
    v: Via,
    r: Rtt,
)
    requires
        !pre.has_spec(a),
        mid.vias_list(a) == pre.vias_list(a).push((v, r)),
    ensures
        spec_inc_events(pre, mid, a, v, r) == seq![
            RouteEvent::ConnectionAdded(ConnectionAdded { to: a, via: v, rtt: r }),
        ],
        spec_dec_events(mid, post, a, v) == seq![
            RouteEvent::ConnectionRemoved(ConnectionRemoved { to: a, via: v }),
        ],
{
    assert(mid.vias_list(a).len() == 1);
    assert(mid.vias_list(a)[0] == (v, r));
    lemma_to_map_contains(mid.vias_list(a), v);
}

/// A table that knows a destination only through one neighbor must choose
/// that neighbor: any answer meeting `forwarder_for`'s contract, asked
/// with an empty blacklist, is that via.
pub proof fn lemma_single_via_forwarder(
    s: &RouteSet,
    c: Address,
    via: Via,
    r: Rtt,
    res: Option<Via>,
)
    requires
        s.vias_of(c) == Map::<Via, Rtt>::empty().insert(via, r),
        (via != Via::Direct),
        match res {
            Some(w) => s.vias_of(c).contains_key(w) && (w == Via::Direct || !Seq::<
                Via,
            >::empty().contains(w)),
            None => forall|w: Via|
                #[trigger] s.vias_of(c).contains_key(w) ==> Seq::<Via>::empty().contains(w),
        },
    ensures
        res == Some(via),
{
    assert(s.vias_of(c).contains_key(via));
    match res {
        Some(w) => {
            assert(w == via);
        },
        None => {
            assert(Seq::<Via>::empty().contains(via));
            assert(false);
        },
    }
}

/// The position of `via` in a via list, if present.
fn find_via(list: &Vec<(Via, Rtt)>, via: Via) -> (r: Option<usize>)
    ensures
        match r {
            Some(i) => i < list@.len() && list@[i as int].0 == via,
            None => forall|j: int| 0 <= j < list@.len() ==> (#[trigger] list@[j]).0 != via,
        },
{
    let n = list.len();
    let mut i: usize = 0;
    while i < n
        invariant
            n == list@.len(),
            0 <= i <= n,
            forall|j: int| 0 <= j < i ==> (#[trigger] list@[j]).0 != via,
        decreases n - i,
    {
        if list[i].0 == via {
            return Some(i);
        }
        i += 1;
    }
    None
}

/// Whether `v` occurs in a plain via list.
fn via_in(list: &Vec<Via>, v: Via) -> (r: bool)
    ensures
        r == list@.contains(v),
{
    let n = list.len();
    let mut i: usize = 0;
    while i < n
        invariant
            n == list@.len(),
            0 <= i <= n,
            forall|j: int| 0 <= j < i ==> list@[j] != v,
        decreases n - i,
    {
        if list[i] == v {
            proof {
                assert(list@.contains(v));
            }
            return true;
        }
        i += 1;
    }
    false
}

} // verus!
