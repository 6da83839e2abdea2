//! Per-variable broadcast: a publisher holds the current value and a
//! registry of subscriptions, each with its own debounce and refresh.
//!
//! Delivery is decided here and carried out by the caller: every operation
//! that delivers returns the `(subscription id, value)` pairs to hand to the
//! subscribers' callbacks, in registry order. Times are milliseconds on the
//! caller's monotonic clock.
use vstd::prelude::*;

use crate::types::Type;
use crate::value::Value;

verus! {

/// The state of one active subscription.
#[derive(Debug, Clone, Copy, PartialEq, Eq, Structural)]
pub struct Subscription {
    /// The id the publisher handed out for it.
    pub id: u64,
    /// The last value delivered.
    pub last_value: Option<Value>,
    /// When the last value was delivered.
    pub last_update: Option<u64>,
    /// When the refresh timer was last armed.
    pub armed_at: Option<u64>,
    /// How long after the last delivery the last value is sent again.
    pub refresh: u64,
    /// How long after a delivery further updates are suppressed.
    pub debounce: u64,
}

/// The time from `from` to `to`, or zero where `to` is earlier.
pub open spec fn elapsed(from: u64, to: u64) -> int {
    if to >= from {
        to - from
    } else {
        0
    }
}

/// Whether an update at `now` falls in the debounce window of `s`.
pub open spec fn suppressed(s: Subscription, now: u64) -> bool {
    s.last_value is Some && (s.last_update matches Some(t) && elapsed(t, now) < s.debounce)
}

/// A subscription after it was offered `v` at `now`, and whether `v` was
/// delivered.
pub open spec fn sub_update(s: Subscription, now: u64, v: Value) -> (Subscription, bool) {
    if suppressed(s, now) {
        (s, false)
    } else {
        (Subscription { last_value: Some(v), last_update: Some(now), armed_at: Some(now), ..s }, true)
    }
}

/// A subscription after its refresh timer was checked at `now`, and the
/// value sent again, if any.
pub open spec fn sub_refresh(s: Subscription, now: u64) -> (Subscription, Option<Value>) {
    match (s.armed_at, s.last_value) {
        (Some(t), Some(v)) => if elapsed(t, now) >= s.refresh {
            (Subscription { armed_at: Some(now), ..s }, Some(v))
        } else {
            (s, None)
        },
        _ => (s, None),
    }
}

/// A fresh subscription: nothing delivered yet, timer not armed.
pub open spec fn fresh(id: u64, refresh: u64, debounce: u64) -> Subscription {
    Subscription {
        id,
        last_value: None,
        last_update: None,
        armed_at: None,
        refresh,
        debounce,
    }
}

/// The ids of `subs`, in order.
pub open spec fn ids_of(subs: Seq<Subscription>) -> Seq<u64> {
    subs.map_values(|s: Subscription| s.id)
}

/// The deliveries of offering `v` at `now` to each of `subs`, in order.
pub open spec fn deliveries(subs: Seq<Subscription>, now: u64, v: Value) -> Seq<(u64, Value)>
    decreases subs.len(),
{
    if subs.len() == 0 {
        Seq::empty()
    } else {
        let rest = deliveries(subs.drop_last(), now, v);
        if sub_update(subs.last(), now, v).1 {
            rest.push((subs.last().id, v))
        } else {
            rest
        }
    }
}

/// The values sent again by checking each refresh timer of `subs` at `now`.
pub open spec fn resends(subs: Seq<Subscription>, now: u64) -> Seq<(u64, Value)>
    decreases subs.len(),
{
    if subs.len() == 0 {
        Seq::empty()
    } else {
        let rest = resends(subs.drop_last(), now);
        match sub_refresh(subs.last(), now).1 {
            Some(v) => rest.push((subs.last().id, v)),
            None => rest,
        }
    }
}

/// Owns the current value of one variable and the registry of its active
/// subscriptions.
pub struct Publisher {
    subscriptions: Vec<Subscription>,
    value_type: Type,
    value: Option<Value>,
    next_id: u64,
}

impl Publisher {
    /// The active subscriptions, in the order they subscribed.
    pub closed spec fn subs(&self) -> Seq<Subscription> {
        self.subscriptions@
    }

    /// The current value.
    pub closed spec fn current(&self) -> Option<Value> {
        self.value
    }

    /// The type of the values published.
    pub closed spec fn published_type(&self) -> Type {
        self.value_type
    }

    /// The id the next subscription will get.
    pub closed spec fn next(&self) -> u64 {
        self.next_id
    }

    /// Every id in the registry is unique and below the next id.
    pub open spec fn wf(&self) -> bool {
        &&& ids_of(self.subs()).no_duplicates()
        &&& forall|i: int| 0 <= i < self.subs().len() ==> #[trigger] self.subs()[i].id < self.next()
    }

    /// A publisher of values of `value_type`, with no value and no
    /// subscriptions.
    pub fn new(value_type: Type) -> (r: Self)
        ensures
            r.wf(),
            r.subs() == Seq::<Subscription>::empty(),
            r.current() is None,
            r.next() == 0,
            r.published_type() == value_type,
    {
        let r = Publisher { subscriptions: Vec::new(), value_type, value: None, next_id: 0 };
        proof {
            assert(ids_of(r.subs()) =~= Seq::<u64>::empty());
        }
        r
    }

    /// The type of the values published.
    pub fn value_type(&self) -> (r: &Type)
        ensures
            *r == self.published_type(),
    {
        &self.value_type
    }

    /// The current value.
    pub fn value(&self) -> (r: Option<Value>)
        ensures
            r == self.current(),
    {
        self.value
    }

    /// Registers a fresh subscription and returns its id; `None` once the
    /// ids are used up.
    pub fn subscribe(&mut self, refresh: u64, debounce: u64) -> (r: Option<u64>)
        requires
            old(self).wf(),
        ensures
            final(self).wf(),
            final(self).current() == old(self).current(),
            old(self).next() == u64::MAX ==> r is None && final(self).subs() == old(self).subs(),
            old(self).next() < u64::MAX ==> r == Some(old(self).next()) && final(self).subs()
                == old(self).subs().push(fresh(old(self).next(), refresh, debounce)),
    {
        if self.next_id == u64::MAX {
            return None;
        }
        let id = self.next_id;
        let ghost before = self.subscriptions@;
        self.subscriptions.push(
            Subscription {
                id,
                last_value: None,
                last_update: None,
                armed_at: None,
                refresh,
                debounce,
            },
        );
        self.next_id = id + 1;
        proof {
            assert(ids_of(self.subscriptions@) =~= ids_of(before).push(id));
            assert forall|i: int, j: int|
                0 <= i < j < ids_of(self.subscriptions@).len() implies ids_of(
                self.subscriptions@,
            )[i] != ids_of(self.subscriptions@)[j] by {
                if j < before.len() {
                    assert(ids_of(before)[i] != ids_of(before)[j]);
                } else {
                    assert(before[i].id < id);
                }
            }
        }
        Some(id)
    }

    /// The position of subscription `id` in the registry.
    fn find(&self, id: u64) -> (r: Option<usize>)
        ensures
            match r {
                Some(i) => i < self.subs().len() && self.subs()[i as int].id == id,
                None => !ids_of(self.subs()).contains(id),
            },
    {
        let mut i: usize = 0;
        while i < self.subscriptions.len()
            invariant
                i <= self.subs().len(),
                forall|j: int| 0 <= j < i ==> #[trigger] self.subs()[j].id != id,
            decreases self.subs().len() - i,
        {
            if self.subscriptions[i].id == id {
                return Some(i);
            }
            i = i + 1;
        }
        proof {
            if ids_of(self.subs()).contains(id) {
                let k = choose|k: int| 0 <= k < self.subs().len() && ids_of(self.subs())[k] == id;
                assert(self.subs()[k].id == id);
            }
        }
        None
    }

    /// The state of subscription `id`, where it is active.
    pub fn subscription(&self, id: u64) -> (r: Option<Subscription>)
        ensures
            match r {
                Some(s) => s.id == id && self.subs().contains(s),
                None => !ids_of(self.subs()).contains(id),
            },
    {
        match self.find(id) {
            Some(i) => Some(self.subscriptions[i]),
            None => None,
        }
    }

    /// Stores `v` as the current value and offers it at `now` to every
    /// active subscription; returns the deliveries.
    pub fn update(&mut self, now: u64, v: Value) -> (r: Vec<(u64, Value)>)
        requires
            old(self).wf(),
        ensures
            final(self).wf(),
            final(self).current() == Some(v),
            final(self).next() == old(self).next(),
            final(self).subs().len() == old(self).subs().len(),
            forall|i: int|
                0 <= i < old(self).subs().len() ==> #[trigger] final(self).subs()[i] == sub_update(
                    old(self).subs()[i],
                    now,
                    v,
                ).0,
            r@ == deliveries(old(self).subs(), now, v),
    {
        self.value = Some(v);
        let ghost start = self.subscriptions@;
        let mut out: Vec<(u64, Value)> = Vec::new();
        let mut i: usize = 0;
        while i < self.subscriptions.len()
            invariant
                self.subs().len() == start.len(),
                i <= start.len(),
                self.value == Some(v),
                self.next_id == old(self).next_id,
                forall|j: int| 0 <= j < i ==> #[trigger] self.subs()[j] == sub_update(start[j], now, v).0,
                forall|j: int| i <= j < start.len() ==> #[trigger] self.subs()[j] == start[j],
                out@ == deliveries(start.subrange(0, i as int), now, v),
            decreases start.len() - i,
        {
            let s = self.subscriptions[i];
            let suppress = match (s.last_value, s.last_update) {
                (Some(_), Some(t)) => (if now >= t {
                    now - t
                } else {
                    0
                }) < s.debounce,
                _ => false,
            };
            proof {
                assert(start.subrange(0, i + 1).drop_last() =~= start.subrange(0, i as int));
                assert(start.subrange(0, i + 1).last() == start[i as int]);
            }
            if !suppress {
                let ns = Subscription {
                    last_value: Some(v),
                    last_update: Some(now),
                    armed_at: Some(now),
                    ..s
                };
                self.subscriptions.set(i, ns);
                out.push((s.id, v));
            }
            i = i + 1;
        }
        proof {
            assert(start.subrange(0, start.len() as int) =~= start);
            assert(ids_of(self.subs()) =~= ids_of(start));
            assert forall|j: int| 0 <= j < self.subs().len() implies #[trigger] self.subs()[j].id
                < self.next() by {
                assert(start[j].id == ids_of(start)[j]);
            }
        }
        out
    }

    /// Sends again the last value of every subscription whose refresh time
    /// has passed since its timer was armed, and arms it anew.
    pub fn fire_refresh(&mut self, now: u64) -> (r: Vec<(u64, Value)>)
        requires
            old(self).wf(),
        ensures
            final(self).wf(),
            final(self).current() == old(self).current(),
            final(self).next() == old(self).next(),
            final(self).subs().len() == old(self).subs().len(),
            forall|i: int|
                0 <= i < old(self).subs().len() ==> #[trigger] final(self).subs()[i] == sub_refresh(
                    old(self).subs()[i],
                    now,
                ).0,
            r@ == resends(old(self).subs(), now),
    {
        let ghost start = self.subscriptions@;
        let mut out: Vec<(u64, Value)> = Vec::new();
        let mut i: usize = 0;
        while i < self.subscriptions.len()
            invariant
                self.subs().len() == start.len(),
                i <= start.len(),
                self.value == old(self).value,
                self.next_id == old(self).next_id,
                forall|j: int| 0 <= j < i ==> #[trigger] self.subs()[j] == sub_refresh(start[j], now).0,
                forall|j: int| i <= j < start.len() ==> #[trigger] self.subs()[j] == start[j],
                out@ == resends(start.subrange(0, i as int), now),
            decreases start.len() - i,
        {
            let s = self.subscriptions[i];
            proof {
                assert(start.subrange(0, i + 1).drop_last() =~= start.subrange(0, i as int));
                assert(start.subrange(0, i + 1).last() == start[i as int]);
            }
            match (s.armed_at, s.last_value) {
                (Some(t), Some(lv)) => {
                    if (if now >= t {
                        now - t
                    } else {
                        0
                    }) >= s.refresh {
                        self.subscriptions.set(i, Subscription { armed_at: Some(now), ..s });
                        out.push((s.id, lv));
                    }
                },
                _ => {},
            }
            i = i + 1;
        }
        proof {
            assert(start.subrange(0, start.len() as int) =~= start);
            assert(ids_of(self.subs()) =~= ids_of(start));
            assert forall|j: int| 0 <= j < self.subs().len() implies #[trigger] self.subs()[j].id
                < self.next() by {
                assert(start[j].id == ids_of(start)[j]);
            }
        }
        out
    }

    /// Delivers the current value to subscription `id` at once, whatever
    /// it last received; `None` where there is no value yet or `id` is not
    /// active.
    pub fn poll(&mut self, id: u64, now: u64) -> (r: Option<Value>)
        requires
            old(self).wf(),
        ensures
            final(self).wf(),
            final(self).current() == old(self).current(),
            final(self).next() == old(self).next(),
            r == (if old(self).current() is Some && ids_of(old(self).subs()).contains(id) {
                old(self).current()
            } else {
                None
            }),
            r is None ==> final(self).subs() == old(self).subs(),
            r matches Some(v) ==> exists|i: int|
                0 <= i < old(self).subs().len() && old(self).subs()[i].id == id && final(self).subs() == old(self).subs().update(
                    i,
                    sub_update(
                        (Subscription { last_value: None, ..old(self).subs()[i] }),
                        now,
                        v,
                    ).0,
                ),
    {
        let v = match self.value {
            Some(v) => v,
            None => {
                return None;
            },
        };
        let i = match self.find(id) {
            Some(i) => i,
            None => {
                return None;
            },
        };
        let s = self.subscriptions[i];
        let ghost before = self.subscriptions@;
        self.subscriptions.set(
            i,
            Subscription { last_value: Some(v), last_update: Some(now), armed_at: Some(now), ..s },
        );
        proof {
            assert(ids_of(before).contains(id)) by {
                assert(ids_of(before)[i as int] == id);
            }
            assert(ids_of(self.subs()) =~= ids_of(before));
            assert forall|j: int| 0 <= j < self.subs().len() implies #[trigger] self.subs()[j].id
                < self.next() by {
                assert(before[j].id == ids_of(before)[j]);
            }
        }
        Some(v)
    }

    /// Changes the debounce and refresh of subscription `id`; `false` where
    /// it is not active.
    pub fn change(&mut self, id: u64, debounce: u64, refresh: u64) -> (r: bool)
        requires
            old(self).wf(),
        ensures
            final(self).wf(),
            final(self).current() == old(self).current(),
            final(self).next() == old(self).next(),
            r == ids_of(old(self).subs()).contains(id),
            !r ==> final(self).subs() == old(self).subs(),
            r ==> exists|i: int|
                0 <= i < old(self).subs().len() && old(self).subs()[i].id == id && final(self).subs() == old(self).subs().update(
                    i,
                    (Subscription { debounce, refresh, ..old(self).subs()[i] }),
                ),
    {
        let i = match self.find(id) {
            Some(i) => i,
            None => {
                return false;
            },
        };
        let s = self.subscriptions[i];
        let ghost before = self.subscriptions@;
        self.subscriptions.set(i, Subscription { debounce, refresh, ..s });
        proof {
            assert(ids_of(before)[i as int] == id);
            assert(ids_of(self.subs()) =~= ids_of(before));
            assert forall|j: int| 0 <= j < self.subs().len() implies #[trigger] self.subs()[j].id
                < self.next() by {
                assert(before[j].id == ids_of(before)[j]);
            }
        }
        true
    }

    /// Cancels subscription `id`: it leaves the registry. Only the first
    /// cancel of an id does anything; it returns whether this one did.
    pub fn cancel(&mut self, id: u64) -> (r: bool)
        requires
            old(self).wf(),
        ensures
            final(self).wf(),
            final(self).current() == old(self).current(),
            final(self).next() == old(self).next(),
            r == ids_of(old(self).subs()).contains(id),
            !ids_of(final(self).subs()).contains(id),
            !r ==> final(self).subs() == old(self).subs(),
            r ==> exists|i: int|
                0 <= i < old(self).subs().len() && old(self).subs()[i].id == id && final(self).subs() == old(self).subs().remove(i),
    {
        let i = match self.find(id) {
            Some(i) => i,
            None => {
                return false;
            },
        };
        let ghost before = self.subscriptions@;
        self.subscriptions.remove(i);
        proof {
            let bi = ids_of(before);
            assert(bi[i as int] == id);
            assert(ids_of(self.subs()) =~= bi.remove(i as int));
            assert forall|a: int, b: int|
                0 <= a < b < ids_of(self.subs()).len() implies ids_of(self.subs())[a] != ids_of(
                self.subs(),
            )[b] by {
                let a2 = if a < i {
                    a
                } else {
                    a + 1
                };
                let b2 = if b < i {
                    b
                } else {
                    b + 1
                };
                assert(bi[a2] != bi[b2]);
            }
            assert forall|j: int| 0 <= j < self.subs().len() implies #[trigger] self.subs()[j].id
                < self.next() by {
                let j2 = if j < i {
                    j
                } else {
                    j + 1
                };
                assert(before[j2].id == bi[j2]);
            }
            if ids_of(self.subs()).contains(id) {
                let k = choose|k: int| 0 <= k < ids_of(self.subs()).len() && ids_of(self.subs())[k] == id;
                let k2 = if k < i {
                    k
                } else {
                    k + 1
                };
                assert(bi[k2] == id);
            }
        }
        true
    }

    /// Tears the publisher down: every active subscription is cancelled,
    /// and the ids cancelled are returned, each once, in registry order.
    pub fn teardown(self) -> (r: Vec<u64>)
        requires
            self.wf(),
        ensures
            r@ == ids_of(self.subs()),
            r@.no_duplicates(),
    {
        let mut out: Vec<u64> = Vec::new();
        let mut i: usize = 0;
        while i < self.subscriptions.len()
            invariant
                i <= self.subs().len(),
                out@ == ids_of(self.subs().subrange(0, i as int)),
            decreases self.subs().len() - i,
        {
            proof {
                assert(ids_of(self.subs().subrange(0, i + 1)) =~= ids_of(
                    self.subs().subrange(0, i as int),
                ).push(self.subs()[i as int].id));
            }
            out.push(self.subscriptions[i].id);
            i = i + 1;
        }
        proof {
            assert(self.subs().subrange(0, self.subs().len() as int) =~= self.subs());
        }
        out
    }
}

/// With a debounce of 100 ms, a second update 10 ms after a delivery is
/// suppressed and changes nothing, and a third update 150 ms after the
/// first is delivered.
pub proof fn lemma_debounce_window(
    s: Subscription,
    t: u64,
    v1: Value,
    v2: Value,
    v3: Value,
)
    requires
        s.last_value is None,
        s.debounce == 100,
        t + 150 <= u64::MAX,
    ensures
        ({
            let (s1, d1) = sub_update(s, t, v1);
            let (s2, d2) = sub_update(s1, (t + 10) as u64, v2);
            let (s3, d3) = sub_update(s2, (t + 150) as u64, v3);
            &&& d1
            &&& !d2
            &&& s2 == s1
            &&& d3
            &&& s3.last_value == Some(v3)
        }),
{
}

/// An update is never suppressed for a subscription that has received
/// nothing, so polling right after subscribing delivers the current value.
pub proof fn lemma_first_update_delivered(s: Subscription, now: u64, v: Value)
    requires
        s.last_value is None,
    ensures
        sub_update(s, now, v).1,
        sub_update(s, now, v).0.last_value == Some(v),
{
}

} // verus!
