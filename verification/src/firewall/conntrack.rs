//! Flows that have passed the rules, until they fall silent.

use vstd::multiset::Multiset;
use vstd::prelude::*;

use crate::firewall::packet::Packet;
use crate::map::KeyMap;
use crate::time::{Duration, Instant};

verus! {

/// A flow that has passed the rules.
#[derive(Clone, Copy, Debug)]
pub struct ConnEntry {
    pub expires: Instant,
    pub incoming: bool,
    pub rules_version: u64,
}

/// When to look at which flow again.
pub type Slot = (Instant, Packet);

/// Slots, the earliest of which can be taken first.
#[derive(Debug)]
pub struct ExpiryQueue {
    /// From the latest slot to the earliest.
    slots: Vec<Slot>,
}

spec fn latest_first(slots: Seq<Slot>) -> bool {
    forall|i: int, j: int|
        0 <= i <= j < slots.len() ==> (#[trigger] slots[i]).0.nanos >= (#[trigger] slots[j]).0.nanos
}

impl View for ExpiryQueue {
    type V = Multiset<Slot>;

    closed spec fn view(&self) -> Multiset<Slot> {
        self.slots@.to_multiset()
    }
}

impl ExpiryQueue {
    #[verifier::type_invariant]
    spec fn inv(self) -> bool {
        latest_first(self.slots@)
    }

    pub fn new() -> (r: Self)
        ensures
            r@ == Multiset::<Slot>::empty(),
    {
        let r = ExpiryQueue { slots: Vec::new() };
        proof {
            broadcast use vstd::seq_lib::group_to_multiset_ensures;

            assert(r.slots@.to_multiset().len() == 0);
            assert(r@ =~= Multiset::<Slot>::empty());
        }
        r
    }

    pub fn len(&self) -> (r: usize)
        ensures
            r == self@.len(),
    {
        proof {
            broadcast use vstd::seq_lib::group_to_multiset_ensures;

        }
        self.slots.len()
    }

    pub fn push(&mut self, at: Instant, packet: Packet)
        ensures
            final(self)@ == old(self)@.insert((at, packet)),
    {
        proof {
            use_type_invariant(&*self);
        }
        let mut slots: Vec<Slot> = Vec::new();
        std::mem::swap(&mut slots, &mut self.slots);
        let ghost before = slots@;
        // The first place with a slot that is not later.
        let mut low: usize = 0;
        let mut high: usize = slots.len();
        while low < high
            invariant
                slots@ == before,
                latest_first(before),
                low <= high <= slots@.len(),
                forall|i: int| 0 <= i < low ==> (#[trigger] before[i]).0.nanos > at.nanos,
                forall|i: int| high <= i < before.len() ==> (#[trigger] before[i]).0.nanos <= at.nanos,
            decreases high - low,
        {
            let mid: usize = low + (high - low) / 2;
            if slots[mid].0.nanos > at.nanos {
                low = mid + 1;
            } else {
                high = mid;
            }
        }
        slots.insert(low, (at, packet));
        proof {
            broadcast use vstd::seq_lib::to_multiset_insert;

            assert(slots@ == before.insert(low as int, (at, packet)));
            assert(latest_first(slots@));
        }
        self.slots = slots;
    }

    /// Takes out the earliest slot, if it is not after `now`.
    pub fn pop_due(&mut self, now: Instant) -> (r: Option<Slot>)
        ensures
            match r {
                Some(slot) => {
                    &&& old(self)@.count(slot) > 0
                    &&& slot.0.nanos <= now.nanos
                    &&& final(self)@ == old(self)@.remove(slot)
                },
                None => {
                    &&& final(self)@ == old(self)@
                    &&& forall|slot: Slot| #[trigger]
                        old(self)@.count(slot) > 0 ==> slot.0.nanos > now.nanos
                },
            },
    {
        proof {
            use_type_invariant(&*self);
            broadcast use vstd::seq_lib::group_to_multiset_ensures;

        }
        let n: usize = self.slots.len();
        if n == 0 || self.slots[n - 1].0.nanos > now.nanos {
            proof {
                assert forall|slot: Slot| #[trigger] self@.count(slot) > 0 implies slot.0.nanos
                    > now.nanos by {
                    assert(self.slots@.contains(slot));
                }
            }
            return None;
        }
        let mut slots: Vec<Slot> = Vec::new();
        std::mem::swap(&mut slots, &mut self.slots);
        let ghost before = slots@;
        let slot = slots.remove(n - 1);
        proof {
            broadcast use vstd::seq_lib::to_multiset_remove;

            assert(before.contains(slot));
            assert(slots@ == before.remove(n - 1));
            assert(latest_first(slots@));
        }
        self.slots = slots;
        Some(slot)
    }
}

/// Tracks flows that have passed the rules, so that their next packets need
/// not be held against them until the flow expires. What has expired is
/// dropped when some packet asks, never in the background.
///
/// A flow has about one slot in the queue: it gets one when it is first
/// recorded, and none when it is refreshed, unless that makes it expire
/// sooner. When the slot comes up, a flow that has been refreshed since gets
/// a new one at its present expiry. So every flow has a slot that comes up no
/// later than the flow expires.
#[derive(Debug)]
pub struct Conntrack {
    conns: KeyMap<Packet, ConnEntry>,
    queue: ExpiryQueue,
}

/// How many slots of a flow have come up.
pub open spec fn due_slots(slots: Multiset<Slot>, packet: Packet, now: Instant) -> nat {
    slots.filter(is_due(packet, now)).len()
}

/// Whether a slot is one of a flow's and has come up.
pub open spec fn is_due(packet: Packet, now: Instant) -> spec_fn(Slot) -> bool {
    |s: Slot| s.0.nanos <= now.nanos && s.1 == packet
}

/// The flows that have not expired at `now`.
pub open spec fn purged(conns: Map<Packet, ConnEntry>, now: Instant) -> Map<Packet, ConnEntry> {
    Map::new(
        |p: Packet| conns.contains_key(p) && conns[p].expires.nanos > now.nanos,
        |p: Packet| conns[p],
    )
}

/// How often purging leaves a slot in the queue. Slots that have come up are
/// gone; each of a flow that lives on is back at the flow's expiry.
pub open spec fn rescheduled(
    conns: Map<Packet, ConnEntry>,
    slots: Multiset<Slot>,
    now: Instant,
    slot: Slot,
) -> nat {
    if slot.0.nanos <= now.nanos {
        0
    } else if conns.contains_key(slot.1) && conns[slot.1].expires == slot.0 {
        slots.count(slot) + due_slots(slots, slot.1, now)
    } else {
        slots.count(slot)
    }
}

proof fn lemma_due_remove(slots: Multiset<Slot>, slot: Slot, packet: Packet, now: Instant)
    requires
        slots.count(slot) > 0,
    ensures
        due_slots(slots.remove(slot), packet, now) == due_slots(slots, packet, now) - (if is_due(
            packet,
            now,
        )(slot) {
            1int
        } else {
            0int
        }),
{
    broadcast use vstd::multiset::group_multiset_axioms;

    let f = is_due(packet, now);
    if f(slot) {
        assert(slots.remove(slot).filter(f) =~= slots.filter(f).remove(slot));
        assert(slots.filter(f).count(slot) > 0);
    } else {
        assert(slots.remove(slot).filter(f) =~= slots.filter(f));
    }
}

proof fn lemma_due_insert(slots: Multiset<Slot>, slot: Slot, packet: Packet, now: Instant)
    ensures
        due_slots(slots.insert(slot), packet, now) == due_slots(slots, packet, now) + (if is_due(
            packet,
            now,
        )(slot) {
            1int
        } else {
            0int
        }),
{
    broadcast use vstd::multiset::group_multiset_axioms;

    let f = is_due(packet, now);
    if f(slot) {
        assert(slots.insert(slot).filter(f) =~= slots.filter(f).insert(slot));
    } else {
        assert(slots.insert(slot).filter(f) =~= slots.filter(f));
    }
}

proof fn lemma_none_due(slots: Multiset<Slot>, packet: Packet, now: Instant)
    requires
        forall|slot: Slot| #[trigger] slots.count(slot) > 0 ==> slot.0.nanos > now.nanos,
    ensures
        due_slots(slots, packet, now) == 0,
{
    broadcast use vstd::multiset::group_multiset_axioms;

    assert(slots.filter(is_due(packet, now)) =~= Multiset::<Slot>::empty());
}

impl Conntrack {
    /// The flows, expired or not, that have not been dropped.
    pub closed spec fn conns(self) -> Map<Packet, ConnEntry> {
        self.conns@
    }

    /// The slots that are still to come up.
    pub closed spec fn slots(self) -> Multiset<Slot> {
        self.queue@
    }

    #[verifier::type_invariant]
    spec fn inv(self) -> bool {
        on_time(self.conns@, self.queue@)
    }

    pub fn new() -> (r: Self)
        ensures
            r.conns() == Map::<Packet, ConnEntry>::empty(),
            r.slots() == Multiset::<Slot>::empty(),
    {
        Conntrack { conns: KeyMap::new(), queue: ExpiryQueue::new() }
    }

    /// How many slots are still to come up.
    pub fn scheduled(&self) -> (r: usize)
        ensures
            r == self.slots().len(),
    {
        self.queue.len()
    }

    /// Drops the flows that have expired at `now`. One that was refreshed
    /// after its slot was scheduled gets a new slot.
    pub fn purge_expired(&mut self, now: Instant)
        ensures
            final(self).conns() == purged(old(self).conns(), now),
            forall|slot: Slot| #[trigger]
                final(self).slots().count(slot) == rescheduled(
                    old(self).conns(),
                    old(self).slots(),
                    now,
                    slot,
                ),
            final(self).slots().len() <= old(self).slots().len(),
    {
        proof {
            use_type_invariant(&*self);
        }
        let ghost all = self.conns();
        let ghost slots = self.slots();
        let mut conns: KeyMap<Packet, ConnEntry> = KeyMap::new();
        let mut queue = ExpiryQueue::new();
        std::mem::swap(&mut conns, &mut self.conns);
        std::mem::swap(&mut queue, &mut self.queue);
        loop
            invariant_except_break
                on_time(conns@, queue@),
                purged(conns@, now) =~= purged(all, now),
                forall|slot: Slot| #[trigger]
                    rescheduled(conns@, queue@, now, slot) == rescheduled(all, slots, now, slot),
                queue@.len() <= slots.len(),
            ensures
                on_time(conns@, queue@),
                queue@.len() <= slots.len(),
                conns@ == purged(all, now),
                forall|slot: Slot| #[trigger]
                    queue@.count(slot) == rescheduled(all, slots, now, slot),
            decreases queue@.filter(|s: Slot| s.0.nanos <= now.nanos).len(),
        {
            let ghost c0 = conns@;
            let ghost s0 = queue@;
            match queue.pop_due(now) {
                None => {
                    proof {
                        lemma_nothing_due(c0, s0, now);
                        assert forall|slot: Slot| #[trigger]
                            queue@.count(slot) == rescheduled(all, slots, now, slot) by {
                            lemma_none_due(s0, slot.1, now);
                            assert(rescheduled(c0, s0, now, slot) == rescheduled(
                                all,
                                slots,
                                now,
                                slot,
                            ));
                        }
                    }
                    break;
                },
                Some((at, packet)) => {
                    let ghost s1 = queue@;
                    proof {
                        broadcast use vstd::multiset::group_multiset_axioms;

                        let f = |s: Slot| s.0.nanos <= now.nanos;
                        assert(s1.filter(f) =~= s0.filter(f).remove((at, packet)));
                        assert(s0.filter(f).count((at, packet)) > 0);
                    }
                    let expires: Option<Instant> = match conns.get(&packet) {
                        Some(entry) => Some(entry.expires),
                        None => None,
                    };
                    if let Some(expires) = expires {
                        if expires.nanos <= now.nanos {
                            conns.remove(&packet);
                            proof {
                                lemma_drop_step(c0, s0, s1, at, packet, now);
                            }
                        } else {
                            queue.push(expires, packet);
                            proof {
                                broadcast use vstd::multiset::group_multiset_axioms;

                                let f = |s: Slot| s.0.nanos <= now.nanos;
                                assert(queue@.filter(f) =~= s1.filter(f));
                                lemma_reschedule_step(c0, s0, s1, at, packet, expires, now);
                            }
                        }
                    }
                    proof {
                        if !c0.contains_key(packet) {
                            lemma_stale_step(c0, s0, s1, at, packet, now);
                        }
                    }
                },
            }
        }
        self.queue = queue;
        self.conns = conns;
    }

    /// What is known of the flow of `packet`, unless it has expired at `now`:
    /// the direction it was let through in, and the version of the rules that
    /// let it through. The flows that have expired are dropped first.
    pub fn get(&mut self, packet: &Packet, now: Instant) -> (r: Option<(bool, u64)>)
        ensures
            final(self).conns() == purged(old(self).conns(), now),
            forall|slot: Slot| #[trigger]
                final(self).slots().count(slot) == rescheduled(
                    old(self).conns(),
                    old(self).slots(),
                    now,
                    slot,
                ),
            r is Some <==> old(self).conns().contains_key(*packet)
                && old(self).conns()[*packet].expires.nanos > now.nanos,
            r matches Some(known) ==> known == (
                old(self).conns()[*packet].incoming,
                old(self).conns()[*packet].rules_version,
            ),
    {
        self.purge_expired(now);
        match self.conns.get(packet) {
            Some(entry) => Some((entry.incoming, entry.rules_version)),
            None => None,
        }
    }

    /// Records or refreshes a flow. It gets a slot if it is new, or if it now
    /// expires sooner than it did; where a refresh only extends it, the slot
    /// it has will do.
    pub fn record(
        &mut self,
        packet: Packet,
        incoming: bool,
        rules_version: u64,
        now: Instant,
        timeout: Duration,
    )
        requires
            now.nanos + timeout.total() <= u128::MAX,
        ensures
            ({
                let expires = (Instant { nanos: (now.nanos + timeout.total()) as u128 });
                let entry = (ConnEntry { expires, incoming, rules_version });
                &&& final(self).conns() == old(self).conns().insert(packet, entry)
                &&& final(self).slots() == (if old(self).conns().contains_key(packet) && old(
                    self,
                ).conns()[packet].expires.nanos <= expires.nanos {
                    old(self).slots()
                } else {
                    old(self).slots().insert((expires, packet))
                })
            }),
    {
        proof {
            use_type_invariant(&*self);
        }
        let ghost all = self.conns();
        let ghost slots = self.slots();
        let expires = now.plus(timeout);
        let mut conns: KeyMap<Packet, ConnEntry> = KeyMap::new();
        let mut queue = ExpiryQueue::new();
        std::mem::swap(&mut conns, &mut self.conns);
        std::mem::swap(&mut queue, &mut self.queue);
        let entry = ConnEntry { expires, incoming, rules_version };
        let extended = match conns.insert(packet, entry) {
            Some(previous) => previous.expires.nanos <= expires.nanos,
            None => false,
        };
        if !extended {
            queue.push(expires, packet);
        }
        proof {
            lemma_record_on_time(all, slots, packet, entry);
        }
        self.queue = queue;
        self.conns = conns;
    }

    /// Forgets a flow at once.
    pub fn remove(&mut self, packet: &Packet)
        ensures
            final(self).conns() == old(self).conns().remove(*packet),
            final(self).slots() == old(self).slots(),
    {
        proof {
            use_type_invariant(&*self);
            lemma_remove_on_time(self.conns(), self.slots(), *packet);
        }
        let mut conns: KeyMap<Packet, ConnEntry> = KeyMap::new();
        std::mem::swap(&mut conns, &mut self.conns);
        conns.remove(packet);
        self.conns = conns;
    }
}

/// Whether every flow has a slot that comes up no later than the flow expires.
spec fn on_time(conns: Map<Packet, ConnEntry>, slots: Multiset<Slot>) -> bool {
    forall|p: Packet| #[trigger] conns.contains_key(p) ==> slot_in_time(slots, p, conns[p].expires)
}

/// Whether a flow has a slot that comes up no later than `expires`.
spec fn slot_in_time(slots: Multiset<Slot>, packet: Packet, expires: Instant) -> bool {
    exists|at: Instant| #[trigger] slots.count((at, packet)) > 0 && at.nanos <= expires.nanos
}

/// Where no slot has come up, no flow has expired.
proof fn lemma_nothing_due(conns: Map<Packet, ConnEntry>, slots: Multiset<Slot>, now: Instant)
    requires
        on_time(conns, slots),
        forall|slot: Slot| #[trigger] slots.count(slot) > 0 ==> slot.0.nanos > now.nanos,
    ensures
        purged(conns, now) == conns,
{
    assert forall|p: Packet| #[trigger] conns.contains_key(p) implies conns[p].expires.nanos
        > now.nanos by {
        assert(slot_in_time(slots, p, conns[p].expires));
    }
    assert(purged(conns, now) =~= conns);
}

/// Recording a flow, with a new slot unless it is only extended, leaves every
/// flow with a slot in time.
proof fn lemma_record_on_time(
    conns: Map<Packet, ConnEntry>,
    slots: Multiset<Slot>,
    packet: Packet,
    entry: ConnEntry,
)
    requires
        on_time(conns, slots),
    ensures
        on_time(
            conns.insert(packet, entry),
            if conns.contains_key(packet) && conns[packet].expires.nanos <= entry.expires.nanos {
                slots
            } else {
                slots.insert((entry.expires, packet))
            },
        ),
{
    broadcast use vstd::multiset::group_multiset_axioms;

    let extended = conns.contains_key(packet) && conns[packet].expires.nanos
        <= entry.expires.nanos;
    let after = if extended {
        slots
    } else {
        slots.insert((entry.expires, packet))
    };
    assert forall|p: Packet| #[trigger]
        conns.insert(packet, entry).contains_key(p) implies slot_in_time(
        after,
        p,
        conns.insert(packet, entry)[p].expires,
    ) by {
        if p != packet || extended {
            assert(conns.contains_key(p));
            let at = choose|at: Instant| #[trigger]
                slots.count((at, p)) > 0 && at.nanos <= conns[p].expires.nanos;
            assert(after.count((at, p)) > 0);
        } else {
            assert(after.count((entry.expires, p)) > 0);
        }
    }
}

/// Forgetting a flow leaves every other flow with a slot in time.
proof fn lemma_remove_on_time(
    conns: Map<Packet, ConnEntry>,
    slots: Multiset<Slot>,
    packet: Packet,
)
    requires
        on_time(conns, slots),
    ensures
        on_time(conns.remove(packet), slots),
{
    assert forall|p: Packet| #[trigger] conns.remove(packet).contains_key(p) implies slot_in_time(
        slots,
        p,
        conns.remove(packet)[p].expires,
    ) by {
        assert(conns.contains_key(p));
    }
}

/// Taking a slot of one flow out leaves the slots of the others.
proof fn lemma_slot_of_another(slots: Multiset<Slot>, taken: Slot, packet: Packet, expires: Instant)
    requires
        slot_in_time(slots, packet, expires),
        taken.1 != packet,
    ensures
        slot_in_time(slots.remove(taken), packet, expires),
{
    broadcast use vstd::multiset::group_multiset_axioms;

    let at = choose|at: Instant| #[trigger]
        slots.count((at, packet)) > 0 && at.nanos <= expires.nanos;
    assert(slots.remove(taken).count((at, packet)) > 0);
}

/// Dropping an expired flow whose slot came up leaves the outcome of purging
/// as it was.
proof fn lemma_drop_step(
    c0: Map<Packet, ConnEntry>,
    s0: Multiset<Slot>,
    s1: Multiset<Slot>,
    at: Instant,
    packet: Packet,
    now: Instant,
)
    requires
        on_time(c0, s0),
        c0.contains_key(packet),
        c0[packet].expires.nanos <= now.nanos,
        at.nanos <= now.nanos,
        s0.count((at, packet)) > 0,
        s1 == s0.remove((at, packet)),
    ensures
        on_time(c0.remove(packet), s1),
        purged(c0.remove(packet), now) =~= purged(c0, now),
        forall|slot: Slot| #[trigger]
            rescheduled(c0.remove(packet), s1, now, slot) == rescheduled(c0, s0, now, slot),
{
    broadcast use vstd::multiset::group_multiset_axioms;

    let c1 = c0.remove(packet);
    assert forall|q: Packet| q != packet implies #[trigger] due_slots(s1, q, now) == due_slots(
        s0,
        q,
        now,
    ) by {
        lemma_due_remove(s0, (at, packet), q, now);
    }
    assert forall|p: Packet| #[trigger] c1.contains_key(p) implies slot_in_time(
        s1,
        p,
        c1[p].expires,
    ) by {
        assert(c0.contains_key(p));
        lemma_slot_of_another(s0, (at, packet), p, c0[p].expires);
    }
}

/// Moving a slot that came up to the refreshed flow's expiry leaves the
/// outcome of purging as it was.
proof fn lemma_reschedule_step(
    c: Map<Packet, ConnEntry>,
    s0: Multiset<Slot>,
    s1: Multiset<Slot>,
    at: Instant,
    packet: Packet,
    expires: Instant,
    now: Instant,
)
    requires
        on_time(c, s0),
        c.contains_key(packet),
        c[packet].expires == expires,
        expires.nanos > now.nanos,
        at.nanos <= now.nanos,
        s0.count((at, packet)) > 0,
        s1 == s0.remove((at, packet)),
    ensures
        on_time(c, s1.insert((expires, packet))),
        forall|slot: Slot| #[trigger]
            rescheduled(c, s1.insert((expires, packet)), now, slot) == rescheduled(c, s0, now, slot),
{
    broadcast use vstd::multiset::group_multiset_axioms;

    let s2 = s1.insert((expires, packet));
    assert forall|q: Packet| #[trigger]
        due_slots(s2, q, now) == due_slots(s0, q, now) - (if q == packet {
            1int
        } else {
            0int
        }) by {
        lemma_due_remove(s0, (at, packet), q, now);
        lemma_due_insert(s1, (expires, packet), q, now);
    }
    assert forall|p: Packet| #[trigger] c.contains_key(p) implies slot_in_time(
        s2,
        p,
        c[p].expires,
    ) by {
        if p == packet {
            assert(s2.count((expires, p)) > 0);
        } else {
            lemma_slot_of_another(s0, (at, packet), p, c[p].expires);
            let t = choose|t: Instant| #[trigger]
                s1.count((t, p)) > 0 && t.nanos <= c[p].expires.nanos;
            assert(s2.count((t, p)) > 0);
        }
    }
}

/// Discarding a slot of a flow that is gone leaves the outcome of purging as
/// it was.
proof fn lemma_stale_step(
    c: Map<Packet, ConnEntry>,
    s0: Multiset<Slot>,
    s1: Multiset<Slot>,
    at: Instant,
    packet: Packet,
    now: Instant,
)
    requires
        on_time(c, s0),
        !c.contains_key(packet),
        at.nanos <= now.nanos,
        s0.count((at, packet)) > 0,
        s1 == s0.remove((at, packet)),
    ensures
        on_time(c, s1),
        forall|slot: Slot| #[trigger]
            rescheduled(c, s1, now, slot) == rescheduled(c, s0, now, slot),
{
    broadcast use vstd::multiset::group_multiset_axioms;

    assert forall|q: Packet| q != packet implies #[trigger] due_slots(s1, q, now) == due_slots(
        s0,
        q,
        now,
    ) by {
        lemma_due_remove(s0, (at, packet), q, now);
    }
    assert forall|p: Packet| #[trigger] c.contains_key(p) implies slot_in_time(
        s1,
        p,
        c[p].expires,
    ) by {
        lemma_slot_of_another(s0, (at, packet), p, c[p].expires);
    }
}

} // verus!
