//! The event emitter: named singletons, each mapping an event name to an
//! ordered list of subscriptions `(once, bus)`. Emitting sends the payload
//! into each subscriber's bus in order and drops one-shot subscriptions.
//!
//! Subscriptions are held flat, in order, each tagged with its emitter and
//! event name; an event's subscriber order is the order of its matching
//! records.

use vstd::prelude::*;
use crate::path::str_eq;
use crate::bus::BusRegistry;

verus! {

/// One subscription: whether it fires once, and the bus it feeds.
#[derive(Clone, Copy, Debug, PartialEq, Eq, Structural)]
pub struct Sub {
    /// Dropped after its first delivery.
    pub once: bool,
    /// The bus the payload goes to.
    pub bus: usize,
}

/// One subscription record: its emitter, its event, and the subscription.
pub struct SubRec {
    name: String,
    event: String,
    once: bool,
    bus: usize,
}

/// One emitter's listener cap (0 = unlimited).
pub struct LimitRec {
    name: String,
    limit: usize,
}

/// The pool of named emitters; lookup creates on miss.
pub struct EmitterRegistry {
    recs: Vec<SubRec>,
    limits: Vec<LimitRec>,
}

/// The subscriptions of one event of one emitter, in record order.
spec fn subs_sel(rs: Seq<SubRec>, n: Seq<char>, e: Seq<char>) -> Seq<Sub>
    decreases rs.len(),
{
    if rs.len() == 0 {
        Seq::<Sub>::empty()
    } else {
        subs_sel(rs.drop_last(), n, e) + (if rs.last().name@ == n && rs.last().event@ == e {
            seq![Sub { once: rs.last().once, bus: rs.last().bus }]
        } else {
            Seq::<Sub>::empty()
        })
    }
}

/// What one emission appends to a bus: the payload once per subscription
/// feeding that bus, in order.
pub open spec fn emitted_to(subs: Seq<Sub>, b: int, v: Seq<char>) -> Seq<Seq<char>>
    decreases subs.len(),
{
    if subs.len() == 0 {
        Seq::<Seq<char>>::empty()
    } else {
        emitted_to(subs.drop_last(), b, v) + (if subs.last().bus == b {
            seq![v]
        } else {
            Seq::<Seq<char>>::empty()
        })
    }
}

/// The listener cap of a named emitter in a cap list; 0 when none is set.
spec fn limit_sel(ls: Seq<LimitRec>, n: Seq<char>) -> nat
    decreases ls.len(),
{
    if ls.len() == 0 {
        0
    } else if ls.last().name@ == n {
        ls.last().limit as nat
    } else {
        limit_sel(ls.drop_last(), n)
    }
}

/// Cap names are unique.
spec fn unique_limits(ls: Seq<LimitRec>) -> bool {
    forall|i: int, j: int| 0 <= i < j < ls.len() ==> ls[i].name@ != ls[j].name@
}

/// With unique names, the cap list gives each stored record's limit.
proof fn lemma_limit_index(ls: Seq<LimitRec>, i: int)
    requires
        unique_limits(ls),
        0 <= i < ls.len(),
    ensures
        limit_sel(ls, ls[i].name@) == ls[i].limit as nat,
    decreases ls.len(),
{
    if i == ls.len() - 1 {
    } else {
        lemma_limit_index(ls.drop_last(), i);
        assert(ls.drop_last()[i] == ls[i]);
        assert(ls.last().name@ != ls[i].name@);
    }
}

/// A name without a record has the cap 0.
proof fn lemma_limit_absent(ls: Seq<LimitRec>, n: Seq<char>)
    requires
        forall|i: int| 0 <= i < ls.len() ==> ls[i].name@ != n,
    ensures
        limit_sel(ls, n) == 0,
    decreases ls.len(),
{
    if ls.len() > 0 {
        lemma_limit_absent(ls.drop_last(), n);
    }
}

/// With unique names, replacing the record at an index updates its cap.
proof fn lemma_limit_update(ls: Seq<LimitRec>, i: int, l: LimitRec)
    requires
        unique_limits(ls),
        0 <= i < ls.len(),
        l.name@ == ls[i].name@,
    ensures
        limit_sel(ls.update(i, l), l.name@) == l.limit as nat,
        unique_limits(ls.update(i, l)),
    decreases ls.len(),
{
    let u = ls.update(i, l);
    assert(forall|j: int| 0 <= j < ls.len() ==> #[trigger] u[j].name@ == ls[j].name@);
    assert(unique_limits(u));
    if i == ls.len() - 1 {
        assert(u.last() == l);
    } else {
        lemma_limit_update(ls.drop_last(), i, l);
        assert(u.drop_last() =~= ls.drop_last().update(i, l));
        assert(u.last() == ls.last());
        assert(ls[i].name@ != ls[ls.len() - 1].name@);
    }
}

/// Replacing a record while keeping its name leaves every other name's cap
/// alone.
proof fn lemma_limit_update_other(ls: Seq<LimitRec>, i: int, l: LimitRec, n2: Seq<char>)
    requires
        0 <= i < ls.len(),
        l.name@ == ls[i].name@,
        n2 != l.name@,
    ensures
        limit_sel(ls.update(i, l), n2) == limit_sel(ls, n2),
    decreases ls.len(),
{
    let u = ls.update(i, l);
    if i == ls.len() - 1 {
        assert(u.drop_last() =~= ls.drop_last());
        assert(u.last() == l);
    } else {
        lemma_limit_update_other(ls.drop_last(), i, l, n2);
        assert(u.drop_last() =~= ls.drop_last().update(i, l));
        assert(u.last() == ls.last());
    }
}

/// The subscriptions that survive one emission: those not marked once.
pub open spec fn surviving(subs: Seq<Sub>) -> Seq<Sub>
    decreases subs.len(),
{
    if subs.len() == 0 {
        Seq::<Sub>::empty()
    } else {
        surviving(subs.drop_last()) + (if !subs.last().once {
            seq![subs.last()]
        } else {
            Seq::<Sub>::empty()
        })
    }
}

/// A subscriber of a bus gets the payload at least once, and everything an
/// emission appends is the payload itself.
pub proof fn lemma_emitted_to_subscriber(subs: Seq<Sub>, b: int, v: Seq<char>)
    requires
        exists|i: int| 0 <= i < subs.len() && (#[trigger] subs[i]).bus == b,
    ensures
        emitted_to(subs, b, v).len() >= 1,
        forall|j: int| 0 <= j < emitted_to(subs, b, v).len() ==> emitted_to(subs, b, v)[j] == v,
    decreases subs.len(),
{
    lemma_emitted_to_payload(subs, b, v);
    let i = choose|i: int| 0 <= i < subs.len() && (#[trigger] subs[i]).bus == b;
    if i == subs.len() - 1 {
    } else {
        assert(subs.drop_last()[i].bus == b);
        lemma_emitted_to_subscriber(subs.drop_last(), b, v);
    }
}

/// Everything an emission appends is the payload.
pub proof fn lemma_emitted_to_payload(subs: Seq<Sub>, b: int, v: Seq<char>)
    ensures
        forall|j: int| 0 <= j < emitted_to(subs, b, v).len() ==> emitted_to(subs, b, v)[j] == v,
    decreases subs.len(),
{
    if subs.len() > 0 {
        lemma_emitted_to_payload(subs.drop_last(), b, v);
        let pre = emitted_to(subs.drop_last(), b, v);
        assert forall|j: int| 0 <= j < emitted_to(subs, b, v).len() implies emitted_to(
            subs,
            b,
            v,
        )[j] == v by {
            if j < pre.len() {
                assert(emitted_to(subs, b, v)[j] == pre[j]);
            }
        }
    }
}

impl EmitterRegistry {
    /// The subscriptions of an event of a named emitter, in order.
    pub closed spec fn subs_of(self, name: Seq<char>, event: Seq<char>) -> Seq<Sub> {
        subs_sel(self.recs@, name, event)
    }

    /// The listener cap of a named emitter; 0 means unlimited.
    pub closed spec fn limit_of(self, name: Seq<char>) -> nat {
        limit_sel(self.limits@, name)
    }

    /// Cap names are unique.
    pub closed spec fn wf(self) -> bool {
        unique_limits(self.limits@)
    }

    /// An empty pool.
    pub fn new() -> (r: EmitterRegistry)
        ensures
            r.wf(),
            forall|n: Seq<char>, e: Seq<char>| r.subs_of(n, e) == Seq::<Sub>::empty(),
            forall|n: Seq<char>| r.limit_of(n) == 0,
    {
        let r = EmitterRegistry { recs: Vec::new(), limits: Vec::new() };
        proof {
            assert forall|n: Seq<char>| r.limit_of(n) == 0 by {
                lemma_limit_absent(r.limits@, n);
            }
        }
        r
    }

    /// The listener cap of a named emitter; 0 (unlimited) when none is set.
    pub fn get_max_listeners(&self, name: &str) -> (r: usize)
        requires
            self.wf(),
        ensures
            r == self.limit_of(name@),
    {
        let n = self.limits.len();
        let mut i: usize = 0;
        while i < n
            invariant
                i <= n,
                self.wf(),
                n == self.limits@.len(),
                forall|j: int| 0 <= j < i ==> self.limits@[j].name@ != name@,
            decreases n - i,
        {
            if str_eq(self.limits[i].name.as_str(), name) {
                proof {
                    lemma_limit_index(self.limits@, i as int);
                }
                return self.limits[i].limit;
            }
            i += 1;
        }
        proof {
            lemma_limit_absent(self.limits@, name@);
        }
        0
    }

    /// Sets the listener cap of a named emitter.
    pub fn set_max_listeners(&mut self, name: &str, limit: usize)
        requires
            old(self).wf(),
        ensures
            final(self).wf(),
            final(self).limit_of(name@) == limit,
            forall|n2: Seq<char>| n2 != name@ ==> final(self).limit_of(n2) == old(self).limit_of(
                n2,
            ),
            forall|n: Seq<char>, e: Seq<char>| final(self).subs_of(n, e) == old(self).subs_of(n, e),
    {
        let n = self.limits.len();
        let mut i: usize = 0;
        while i < n
            invariant
                i <= n,
                old(self).wf(),
                self == old(self),
                n == self.limits@.len(),
                self.recs@ == old(self).recs@,
                forall|j: int| 0 <= j < i ==> self.limits@[j].name@ != name@,
            decreases n - i,
        {
            if str_eq(self.limits[i].name.as_str(), name) {
                let nv = crate::path::str_chars(name);
                let rec = LimitRec { name: crate::ext::chars_to_string(&nv), limit };
                proof {
                    lemma_limit_update(old(self).limits@, i as int, rec);
                    assert forall|n2: Seq<char>| n2 != name@ implies limit_sel(
                        old(self).limits@.update(i as int, rec),
                        n2,
                    ) == limit_sel(old(self).limits@, n2) by {
                        lemma_limit_update_other(old(self).limits@, i as int, rec, n2);
                    }
                }
                self.limits[i] = rec;
                proof {
                    assert(self.limits@ =~= old(self).limits@.update(
                        i as int,
                        self.limits@[i as int],
                    ));
                    assert(self.limits@ =~= old(self).limits@.update(i as int, rec));
                }
                return ;
            }
            i += 1;
        }
        let nv = crate::path::str_chars(name);
        let ghost before = self.limits@;
        self.limits.push(LimitRec { name: crate::ext::chars_to_string(&nv), limit });
        proof {
            assert(self.limits@.drop_last() =~= before);
            assert(forall|j: int| 0 <= j < before.len() ==> self.limits@[j] == before[j]);
            assert forall|n2: Seq<char>| n2 != name@ implies limit_sel(self.limits@, n2)
                == limit_sel(before, n2) by {}
        }
    }

    /// How many subscriptions an event of a named emitter has.
    pub fn listener_count(&self, name: &str, event: &str) -> (r: usize)
        ensures
            r == self.subs_of(name@, event@).len(),
    {
        let n = self.recs.len();
        let mut count: usize = 0;
        let mut i: usize = 0;
        proof {
            assert(self.recs@.subrange(0, 0) =~= Seq::<SubRec>::empty());
        }
        while i < n
            invariant
                i <= n,
                n == self.recs@.len(),
                count == subs_sel(self.recs@.subrange(0, i as int), name@, event@).len(),
                count <= i,
            decreases n - i,
        {
            proof {
                assert(self.recs@.subrange(0, i + 1).drop_last() =~= self.recs@.subrange(
                    0,
                    i as int,
                ));
                assert(self.recs@.subrange(0, i + 1).last() == self.recs@[i as int]);
            }
            if str_eq(self.recs[i].name.as_str(), name) && str_eq(
                self.recs[i].event.as_str(),
                event,
            ) {
                count += 1;
            }
            i += 1;
        }
        proof {
            assert(self.recs@.subrange(0, n as int) =~= self.recs@);
        }
        count
    }

    /// The bus ids subscribed to an event of a named emitter, in order.
    pub fn listeners(&self, name: &str, event: &str) -> (r: Vec<usize>)
        ensures
            r@.len() == self.subs_of(name@, event@).len(),
            forall|j: int| 0 <= j < r@.len() ==> r@[j] == self.subs_of(name@, event@)[j].bus,
    {
        let n = self.recs.len();
        let mut out: Vec<usize> = Vec::new();
        let mut i: usize = 0;
        proof {
            assert(self.recs@.subrange(0, 0) =~= Seq::<SubRec>::empty());
        }
        while i < n
            invariant
                i <= n,
                n == self.recs@.len(),
                out@.len() == subs_sel(self.recs@.subrange(0, i as int), name@, event@).len(),
                forall|j: int| 0 <= j < out@.len() ==> out@[j] == subs_sel(
                    self.recs@.subrange(0, i as int),
                    name@,
                    event@,
                )[j].bus,
            decreases n - i,
        {
            proof {
                assert(self.recs@.subrange(0, i + 1).drop_last() =~= self.recs@.subrange(
                    0,
                    i as int,
                ));
                assert(self.recs@.subrange(0, i + 1).last() == self.recs@[i as int]);
            }
            if str_eq(self.recs[i].name.as_str(), name) && str_eq(
                self.recs[i].event.as_str(),
                event,
            ) {
                out.push(self.recs[i].bus);
            }
            i += 1;
        }
        proof {
            assert(self.recs@.subrange(0, n as int) =~= self.recs@);
        }
        out
    }

    /// Appends a subscription for an event of a named emitter; refused
    /// exactly when the emitter's listener cap is already reached.
    pub fn on(&mut self, name: &str, event: &str, channel: usize, once: bool) -> (r: bool)
        requires
            old(self).wf(),
        ensures
            final(self).wf(),
            final(self).limit_of(name@) == old(self).limit_of(name@),
            r <==> !(old(self).limit_of(name@) > 0 && old(self).subs_of(name@, event@).len()
                >= old(self).limit_of(name@)),
            r ==> final(self).subs_of(name@, event@) == old(self).subs_of(name@, event@).push(
                Sub { once, bus: channel },
            ),
            !r ==> final(self).subs_of(name@, event@) == old(self).subs_of(name@, event@),
            forall|n2: Seq<char>, e2: Seq<char>|
                n2 != name@ || e2 != event@ ==> final(self).subs_of(n2, e2) == old(self).subs_of(
                    n2,
                    e2,
                ),
    {
        let limit = self.get_max_listeners(name);
        if limit > 0 && self.listener_count(name, event) >= limit {
            return false;
        }
        let ghost before = self.recs@;
        let nv = crate::path::str_chars(name);
        let ev = crate::path::str_chars(event);
        self.recs.push(
            SubRec {
                name: crate::ext::chars_to_string(&nv),
                event: crate::ext::chars_to_string(&ev),
                once,
                bus: channel,
            },
        );
        proof {
            assert(self.recs@.drop_last() =~= before);
            assert forall|n2: Seq<char>, e2: Seq<char>| n2 != name@ || e2 != event@ implies #[trigger] subs_sel(
                self.recs@,
                n2,
                e2,
            ) == subs_sel(before, n2, e2) by {
                assert(subs_sel(self.recs@, n2, e2) =~= subs_sel(before, n2, e2));
            }
        }
        true
    }

    /// Drops every subscription of a bus for an event of a named emitter.
    pub fn off(&mut self, name: &str, event: &str, channel: usize)
        ensures
            final(self).subs_of(name@, event@).len() <= old(self).subs_of(name@, event@).len(),
            forall|j: int|
                0 <= j < final(self).subs_of(name@, event@).len() ==> final(self).subs_of(
                    name@,
                    event@,
                )[j].bus != channel,
    {
        let n = self.recs.len();
        let mut kept: Vec<SubRec> = Vec::new();
        let mut i: usize = 0;
        proof {
            assert(self.recs@.subrange(0, 0) =~= Seq::<SubRec>::empty());
        }
        while i < n
            invariant
                i <= n,
                n == self.recs@.len(),
                self.recs@ == old(self).recs@,
                subs_sel(kept@, name@, event@).len() <= subs_sel(
                    self.recs@.subrange(0, i as int),
                    name@,
                    event@,
                ).len(),
                forall|j: int| 0 <= j < subs_sel(kept@, name@, event@).len() ==> subs_sel(
                    kept@,
                    name@,
                    event@,
                )[j].bus != channel,
            decreases n - i,
        {
            proof {
                assert(self.recs@.subrange(0, i + 1).drop_last() =~= self.recs@.subrange(
                    0,
                    i as int,
                ));
                assert(self.recs@.subrange(0, i + 1).last() == self.recs@[i as int]);
            }
            let matches_rec = str_eq(self.recs[i].name.as_str(), name) && str_eq(
                self.recs[i].event.as_str(),
                event,
            ) && self.recs[i].bus == channel;
            if !matches_rec {
                let ghost keptb = kept@;
                let r = SubRec {
                    name: self.recs[i].name.clone(),
                    event: self.recs[i].event.clone(),
                    once: self.recs[i].once,
                    bus: self.recs[i].bus,
                };
                kept.push(r);
                proof {
                    assert(kept@.drop_last() =~= keptb);
                }
            }
            i += 1;
        }
        proof {
            assert(self.recs@.subrange(0, n as int) =~= self.recs@);
        }
        self.recs = kept;
    }

    /// Emits a payload: every subscription of the event gets it, in order,
    /// and one-shot subscriptions are dropped.
    pub fn emit(&mut self, name: &str, event: &str, value: &String, buses: &mut BusRegistry)
        requires
            old(buses).wf(),
        ensures
            final(buses).wf(),
            final(buses).slot_count() == old(buses).slot_count(),
            forall|b: int| 0 <= b < old(buses).slot_count() ==> final(buses).held(b) == old(
                buses,
            ).held(b),
            forall|b: int| 0 <= b < old(buses).slot_count() ==> final(buses).queue(b) == old(
                buses,
            ).queue(b) + emitted_to(old(self).subs_of(name@, event@), b, value@),
            final(self).subs_of(name@, event@) == surviving(old(self).subs_of(name@, event@)),
            forall|n2: Seq<char>, e2: Seq<char>|
                n2 != name@ || e2 != event@ ==> #[trigger] final(self).subs_of(n2, e2) == old(
                    self,
                ).subs_of(n2, e2),
    {
        let n = self.recs.len();
        let mut kept: Vec<SubRec> = Vec::new();
        let mut i: usize = 0;
        proof {
            assert(self.recs@.subrange(0, 0) =~= Seq::<SubRec>::empty());
            assert(forall|b: int| 0 <= b < old(buses).slot_count() ==> old(buses).queue(b)
                + emitted_to(
                subs_sel(self.recs@.subrange(0, 0), name@, event@),
                b,
                value@,
            ) =~= old(buses).queue(b));
        }
        while i < n
            invariant
                i <= n,
                n == self.recs@.len(),
                self.recs@ == old(self).recs@,
                buses.wf(),
                buses.slot_count() == old(buses).slot_count(),
                forall|b: int| 0 <= b < old(buses).slot_count() ==> buses.held(b) == old(
                    buses,
                ).held(b),
                forall|b: int| 0 <= b < old(buses).slot_count() ==> buses.queue(b) == old(
                    buses,
                ).queue(b) + emitted_to(
                    subs_sel(self.recs@.subrange(0, i as int), name@, event@),
                    b,
                    value@,
                ),
                subs_sel(kept@, name@, event@) == surviving(
                    subs_sel(self.recs@.subrange(0, i as int), name@, event@),
                ),
                forall|n2: Seq<char>, e2: Seq<char>|
                    n2 != name@ || e2 != event@ ==> #[trigger] subs_sel(kept@, n2, e2) == subs_sel(
                        self.recs@.subrange(0, i as int),
                        n2,
                        e2,
                    ),
            decreases n - i,
        {
            proof {
                assert(self.recs@.subrange(0, i + 1).drop_last() =~= self.recs@.subrange(
                    0,
                    i as int,
                ));
                assert(self.recs@.subrange(0, i + 1).last() == self.recs@[i as int]);
            }
            let is_match = str_eq(self.recs[i].name.as_str(), name) && str_eq(
                self.recs[i].event.as_str(),
                event,
            );
            let ghost subs_i = subs_sel(self.recs@.subrange(0, i as int), name@, event@);
            let ghost subs_i1 = subs_sel(self.recs@.subrange(0, i + 1), name@, event@);
            if is_match {
                proof {
                    assert(subs_i1 =~= subs_i.push(
                        Sub { once: self.recs@[i as int].once, bus: self.recs@[i as int].bus },
                    ));
                    assert(subs_i1.drop_last() =~= subs_i);
                }
                buses.sab_bus_send(self.recs[i].bus, value.clone());
                proof {
                    assert forall|b: int| 0 <= b < old(buses).slot_count() implies buses.queue(b)
                        == old(buses).queue(b) + emitted_to(subs_i1, b, value@) by {
                        assert(buses.queue(b) =~= old(buses).queue(b) + emitted_to(
                            subs_i1,
                            b,
                            value@,
                        ));
                    }
                }
            } else {
                proof {
                    assert(subs_i1 =~= subs_i);
                    assert forall|b: int| 0 <= b < old(buses).slot_count() implies buses.queue(b)
                        == old(buses).queue(b) + emitted_to(subs_i1, b, value@) by {
                        assert(buses.queue(b) =~= old(buses).queue(b) + emitted_to(
                            subs_i1,
                            b,
                            value@,
                        ));
                    }
                }
            }
            if !(is_match && self.recs[i].once) {
                let ghost keptb = kept@;
                let r = SubRec {
                    name: self.recs[i].name.clone(),
                    event: self.recs[i].event.clone(),
                    once: self.recs[i].once,
                    bus: self.recs[i].bus,
                };
                kept.push(r);
                proof {
                    assert(kept@.drop_last() =~= keptb);
                    assert forall|n2: Seq<char>, e2: Seq<char>| n2 != name@ || e2 != event@ implies #[trigger] subs_sel(
                        kept@,
                        n2,
                        e2,
                    ) == subs_sel(self.recs@.subrange(0, i + 1), n2, e2) by {
                        assert(subs_sel(keptb, n2, e2) == subs_sel(
                            self.recs@.subrange(0, i as int),
                            n2,
                            e2,
                        ));
                        assert(subs_sel(kept@, n2, e2) =~= subs_sel(
                            self.recs@.subrange(0, i + 1),
                            n2,
                            e2,
                        ));
                    }
                }
            } else {
                proof {
                    assert forall|n2: Seq<char>, e2: Seq<char>| n2 != name@ || e2 != event@ implies #[trigger] subs_sel(
                        kept@,
                        n2,
                        e2,
                    ) == subs_sel(self.recs@.subrange(0, i + 1), n2, e2) by {
                        assert(subs_sel(kept@, n2, e2) =~= subs_sel(
                            self.recs@.subrange(0, i + 1),
                            n2,
                            e2,
                        ));
                    }
                }
            }
            i += 1;
        }
        proof {
            assert(self.recs@.subrange(0, n as int) =~= self.recs@);
        }
        self.recs = kept;
    }
}

} // verus!
