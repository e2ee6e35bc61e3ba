//! Per-interface traffic accounting: the bytes each interface moved since the
//! previous reading, the speeds they make over the time elapsed, totals over
//! the session, and the list of interfaces worth showing.
use vstd::prelude::*;
use crate::ranking::{rank_desc, ranked};
use crate::text::chars_of;

verus! {

/// Traffic figures of one network interface.
#[derive(Debug, Default)]
pub struct InterfaceStats {
    pub received: u64,
    pub transmitted: u64,
    pub total_received: u64,
    pub total_transmitted: u64,
    pub recv_speed: u64,
    pub sent_speed: u64,
    pub mac: String,
}

impl Clone for InterfaceStats {
    fn clone(&self) -> (c: Self)
        ensures
            c == *self,
    {
        InterfaceStats {
            received: self.received,
            transmitted: self.transmitted,
            total_received: self.total_received,
            total_transmitted: self.total_transmitted,
            recv_speed: self.recv_speed,
            sent_speed: self.sent_speed,
            mac: self.mac.clone(),
        }
    }
}

/// One interface's counters as the operating system reports them at a
/// given moment.
#[derive(Debug)]
pub struct InterfaceReading {
    pub name: String,
    /// Bytes received since the previous reading of the system.
    pub received: u64,
    /// Bytes transmitted since the previous reading of the system.
    pub transmitted: u64,
    /// Bytes received since the system started.
    pub total_received: u64,
    /// Bytes transmitted since the system started.
    pub total_transmitted: u64,
    pub mac: String,
}

/// Tracks the interfaces of the machine from one reading to the next.
pub struct NetworkMonitor {
    /// The figures of every interface at the last reading.
    pub interfaces: Vec<(String, InterfaceStats)>,
    /// Bytes received over all interfaces since the monitor was made.
    pub total_recv: u64,
    /// Bytes transmitted over all interfaces since the monitor was made.
    pub total_sent: u64,
    /// Bytes a second received over all interfaces in the last interval.
    pub total_recv_speed: u64,
    /// Bytes a second transmitted over all interfaces in the last interval.
    pub total_sent_speed: u64,
}

/// No two readings carry one interface name, as a map of interfaces
/// guarantees.
pub open spec fn distinct_readings(readings: Seq<InterfaceReading>) -> bool {
    forall|a: int, b: int| 0 <= a < b < readings.len() ==> readings[a].name@ != readings[b].name@
}

/// No interface is listed twice.
pub open spec fn distinct_interfaces(list: Seq<(String, InterfaceStats)>) -> bool {
    forall|a: int, b: int| 0 <= a < b < list.len() ==> list[a].0@ != list[b].0@
}

/// Whether no two of `readings` carry one name.
pub fn names_distinct(readings: &Vec<InterfaceReading>) -> (b: bool)
    ensures
        b == distinct_readings(readings@),
{
    let n = readings.len();
    for i in 0..n
        invariant
            n == readings@.len(),
            forall|a: int, b: int| 0 <= a < b < n && a < i ==> readings@[a].name@ != readings@[b].name@,
    {
        for j in i + 1..n
            invariant
                n == readings@.len(),
                i < n,
                forall|a: int, b: int|
                    0 <= a < b < n && a < i ==> readings@[a].name@ != readings@[b].name@,
                forall|b: int| i < b < j ==> readings@[i as int].name@ != readings@[b].name@,
        {
            if readings[i].name == readings[j].name {
                return false;
            }
        }
    }
    true
}

/// The shortest elapsed time a speed is computed over: one millisecond.
pub const MIN_ELAPSED_NANOS: u64 = 1_000_000;

/// Bytes a second for `bytes` bytes moved over `elapsed_nanos` nanoseconds
/// (at least a millisecond), rounded down and capped at `u64::MAX`.
pub open spec fn rate(bytes: nat, elapsed_nanos: nat) -> u64 {
    let e = if elapsed_nanos < MIN_ELAPSED_NANOS {
        MIN_ELAPSED_NANOS as nat
    } else {
        elapsed_nanos
    };
    let r = bytes * 1_000_000_000 / e;
    if r > u64::MAX {
        u64::MAX
    } else {
        r as u64
    }
}

/// The figures of an interface from its reading: its speeds are the bytes it
/// moved since the previous reading over the time elapsed.
pub open spec fn reading_stats(r: InterfaceReading, elapsed_nanos: nat) -> InterfaceStats {
    InterfaceStats {
        received: r.received,
        transmitted: r.transmitted,
        total_received: r.total_received,
        total_transmitted: r.total_transmitted,
        recv_speed: rate(r.received as nat, elapsed_nanos),
        sent_speed: rate(r.transmitted as nat, elapsed_nanos),
        mac: r.mac,
    }
}

/// The interface list a refresh computes from `readings`.
pub open spec fn refreshed(readings: Seq<InterfaceReading>, elapsed_nanos: nat) -> Seq<
    (String, InterfaceStats),
> {
    readings.map_values(|r: InterfaceReading| (r.name, reading_stats(r, elapsed_nanos)))
}

/// The sum of `f` over the figures of `list`.
pub open spec fn sum_of(list: Seq<(String, InterfaceStats)>, f: spec_fn(InterfaceStats) -> u64) -> nat
    decreases list.len(),
{
    if list.len() == 0 {
        0
    } else {
        sum_of(list.drop_last(), f) + f(list.last().1) as nat
    }
}

pub open spec fn received_of(s: InterfaceStats) -> u64 {
    s.received
}

pub open spec fn transmitted_of(s: InterfaceStats) -> u64 {
    s.transmitted
}

pub open spec fn recv_speed_of(s: InterfaceStats) -> u64 {
    s.recv_speed
}

pub open spec fn sent_speed_of(s: InterfaceStats) -> u64 {
    s.sent_speed
}

/// An interface name that is not loopback, a bridge, a tunnel, AirDrop,
/// low-latency WLAN, IPsec or a VMware adapter.
pub open spec fn real_interface(name: Seq<char>) -> bool {
    &&& !seq!['l', 'o'].is_prefix_of(name)
    &&& !seq!['b', 'r', 'i', 'd', 'g', 'e'].is_prefix_of(name)
    &&& !seq!['u', 't', 'u', 'n'].is_prefix_of(name)
    &&& !seq!['a', 'w', 'd', 'l'].is_prefix_of(name)
    &&& !seq!['l', 'l', 'w'].is_prefix_of(name)
    &&& !seq!['i', 'p', 's', 'e', 'c'].is_prefix_of(name)
    &&& !seq!['v', 'm', 'n', 'e', 't'].is_prefix_of(name)
}

/// An interface that has carried traffic.
pub open spec fn is_active(s: InterfaceStats) -> bool {
    s.recv_speed > 0 || s.sent_speed > 0 || s.received > 0 || s.transmitted > 0
}

/// An interface the menu lists: a real one that has carried traffic.
pub open spec fn shown(e: (String, InterfaceStats)) -> bool {
    real_interface(e.0@) && is_active(e.1)
}

/// The ordering key of an interface: its combined speed.
pub open spec fn traffic_key(e: (String, InterfaceStats)) -> u128 {
    (e.1.recv_speed + e.1.sent_speed) as u128
}

/// The shown interfaces ordered by combined speed, busiest first, ties in
/// their original order.
pub open spec fn active_list(list: Seq<(String, InterfaceStats)>) -> Seq<(String, InterfaceStats)> {
    let f = list.filter(|e: (String, InterfaceStats)| shown(e));
    let keys = f.map_values(|e: (String, InterfaceStats)| traffic_key(e));
    ranked(keys, f.len()).map_values(|j: usize| f[j as int])
}

proof fn lemma_sum_prefix(list: Seq<(String, InterfaceStats)>, f: spec_fn(InterfaceStats) -> u64, i: int)
    requires
        0 <= i <= list.len(),
    ensures
        sum_of(list.take(i), f) <= sum_of(list, f),
    decreases list.len() - i,
{
    if i < list.len() {
        lemma_sum_prefix(list, f, i + 1);
        assert(list.take(i + 1).drop_last() =~= list.take(i));
    } else {
        assert(list.take(i) =~= list);
    }
}

proof fn lemma_zero_sum(list: Seq<(String, InterfaceStats)>, f: spec_fn(InterfaceStats) -> u64)
    requires
        forall|i: int| 0 <= i < list.len() ==> f(#[trigger] list[i].1) == 0,
    ensures
        sum_of(list, f) == 0,
    decreases list.len(),
{
    if list.len() > 0 {
        let rest = list.drop_last();
        assert forall|i: int| 0 <= i < rest.len() implies f(#[trigger] rest[i].1) == 0 by {
            assert(rest[i] == list[i]);
        }
        lemma_zero_sum(rest, f);
        assert(f(list[list.len() - 1].1) == 0);
    }
}

/// Speeds are throughput: over an interval of one second each interface's
/// speeds are exactly the bytes it moved in that interval, and an interval
/// in which no interface moved a byte has zero total speeds.
pub proof fn lemma_speed_is_throughput(readings: Seq<InterfaceReading>)
    ensures
        forall|i: int|
            0 <= i < readings.len() ==> (#[trigger] reading_stats(readings[i], 1_000_000_000)).recv_speed
                == readings[i].received && reading_stats(readings[i], 1_000_000_000).sent_speed
                == readings[i].transmitted,
        (forall|i: int| 0 <= i < readings.len() ==> #[trigger] readings[i].received == 0
            && readings[i].transmitted == 0) ==> forall|e: nat|
            sum_of(#[trigger] refreshed(readings, e), |s: InterfaceStats| recv_speed_of(s)) == 0
                && sum_of(refreshed(readings, e), |s: InterfaceStats| sent_speed_of(s)) == 0,
{
    assert forall|i: int| 0 <= i < readings.len() implies (#[trigger] reading_stats(
        readings[i],
        1_000_000_000,
    )).recv_speed == readings[i].received && reading_stats(readings[i], 1_000_000_000).sent_speed
        == readings[i].transmitted by {
        let (x, y) = (readings[i].received as nat, readings[i].transmitted as nat);
        assert(x * 1_000_000_000 / 1_000_000_000 == x) by (nonlinear_arith);
        assert(y * 1_000_000_000 / 1_000_000_000 == y) by (nonlinear_arith);
    }
    if forall|i: int| 0 <= i < readings.len() ==> #[trigger] readings[i].received == 0
        && readings[i].transmitted == 0 {
        assert forall|e: nat|
            sum_of(#[trigger] refreshed(readings, e), |s: InterfaceStats| recv_speed_of(s)) == 0
                && sum_of(refreshed(readings, e), |s: InterfaceStats| sent_speed_of(s)) == 0 by {
            lemma_idle_sums(readings, e);
        }
    }
}

proof fn lemma_idle_sums(readings: Seq<InterfaceReading>, e: nat)
    requires
        forall|i: int| 0 <= i < readings.len() ==> #[trigger] readings[i].received == 0
            && readings[i].transmitted == 0,
    ensures
        sum_of(refreshed(readings, e), |s: InterfaceStats| recv_speed_of(s)) == 0,
        sum_of(refreshed(readings, e), |s: InterfaceStats| sent_speed_of(s)) == 0,
{
    let list = refreshed(readings, e);
    assert(rate(0, e) == 0) by {
        let d = if e < MIN_ELAPSED_NANOS {
            MIN_ELAPSED_NANOS as nat
        } else {
            e
        };
        assert(0nat * 1_000_000_000 == 0);
        vstd::arithmetic::div_mod::lemma_div_of0(d as int);
    }
    assert forall|i: int| 0 <= i < list.len() implies recv_speed_of(#[trigger] list[i].1) == 0
        && sent_speed_of(list[i].1) == 0 by {
        assert(list[i].1 == reading_stats(readings[i], e));
        assert(readings[i].received == 0);
        assert(readings[i].transmitted == 0);
    }
    lemma_zero_sum(list, |s: InterfaceStats| recv_speed_of(s));
    lemma_zero_sum(list, |s: InterfaceStats| sent_speed_of(s));
}

/// `speed` is `bytes` bytes moved over `elapsed_nanos` nanoseconds (taken as
/// at least a millisecond) in bytes a second, rounded down, or `u64::MAX`
/// when the exact figure is larger.
pub open spec fn is_speed_of(speed: u64, bytes: nat, elapsed_nanos: nat) -> bool {
    let e = if elapsed_nanos < MIN_ELAPSED_NANOS {
        MIN_ELAPSED_NANOS as nat
    } else {
        elapsed_nanos
    };
    ||| speed * e <= bytes * 1_000_000_000 < (speed + 1) * e
    ||| speed == u64::MAX && u64::MAX * e <= bytes * 1_000_000_000
}

/// The rate of `bytes` over `elapsed_nanos` is the speed they make.
pub proof fn lemma_rate(bytes: nat, elapsed_nanos: nat)
    ensures
        is_speed_of(rate(bytes, elapsed_nanos), bytes, elapsed_nanos),
{
    let e = if elapsed_nanos < MIN_ELAPSED_NANOS {
        MIN_ELAPSED_NANOS as nat
    } else {
        elapsed_nanos
    };
    let n = bytes * 1_000_000_000;
    let q = n / e;
    vstd::arithmetic::div_mod::lemma_fundamental_div_mod(n as int, e as int);
    assert((q + 1) * e == q * e + e) by (nonlinear_arith);
    if q > u64::MAX {
        assert(u64::MAX * e <= q * e) by (nonlinear_arith)
            requires
                q > u64::MAX,
        ;
    }
}

/// A refresh lists every reading once, in order, under its own name, with
/// the byte counts, the totals since the system started and the address it
/// was read with, and speeds made of its own bytes over the elapsed time.
pub proof fn lemma_refreshed(readings: Seq<InterfaceReading>, elapsed_nanos: nat)
    ensures
        refreshed(readings, elapsed_nanos).len() == readings.len(),
        forall|i: int|
            0 <= i < readings.len() ==> {
                let e = #[trigger] refreshed(readings, elapsed_nanos)[i];
                let r = readings[i];
                &&& e.0 == r.name
                &&& e.1.received == r.received
                &&& e.1.transmitted == r.transmitted
                &&& e.1.total_received == r.total_received
                &&& e.1.total_transmitted == r.total_transmitted
                &&& e.1.mac == r.mac
                &&& is_speed_of(e.1.recv_speed, r.received as nat, elapsed_nanos)
                &&& is_speed_of(e.1.sent_speed, r.transmitted as nat, elapsed_nanos)
            },
{
    assert forall|i: int| 0 <= i < readings.len() implies {
        let e = #[trigger] refreshed(readings, elapsed_nanos)[i];
        let r = readings[i];
        &&& e.0 == r.name
        &&& e.1.received == r.received
        &&& e.1.transmitted == r.transmitted
        &&& e.1.total_received == r.total_received
        &&& e.1.total_transmitted == r.total_transmitted
        &&& e.1.mac == r.mac
        &&& is_speed_of(e.1.recv_speed, r.received as nat, elapsed_nanos)
        &&& is_speed_of(e.1.sent_speed, r.transmitted as nat, elapsed_nanos)
    } by {
        lemma_rate(readings[i].received as nat, elapsed_nanos);
        lemma_rate(readings[i].transmitted as nat, elapsed_nanos);
    }
}

/// The interface list shows exactly the real interfaces that carried
/// traffic, each once, busiest first.
pub proof fn lemma_active_list(list: Seq<(String, InterfaceStats)>)
    requires
        list.len() <= usize::MAX,
    ensures
        active_list(list).len() == list.filter(|e: (String, InterfaceStats)| shown(e)).len(),
        forall|k: int| 0 <= k < active_list(list).len() ==> shown(#[trigger] active_list(list)[k]),
        forall|a: int, b: int|
            0 <= a < b < active_list(list).len() ==> traffic_key(#[trigger] active_list(list)[a])
                >= traffic_key(#[trigger] active_list(list)[b]),
        forall|x: (String, InterfaceStats)|
            list.contains(x) && shown(x) ==> #[trigger] active_list(list).contains(x),
        forall|a: int, b: int|
            #![trigger active_list(list)[a], active_list(list)[b]]
            0 <= a < b < active_list(list).len() ==> active_list(list)[a].1.recv_speed
                + active_list(list)[a].1.sent_speed >= active_list(list)[b].1.recv_speed
                + active_list(list)[b].1.sent_speed,
        forall|k: int|
            0 <= k < active_list(list).len() ==> {
                let e = #[trigger] active_list(list)[k];
                &&& list.contains(e)
                &&& e.1.recv_speed > 0 || e.1.sent_speed > 0 || e.1.received > 0
                    || e.1.transmitted > 0
                &&& !seq!['l', 'o'].is_prefix_of(e.0@)
                &&& !seq!['b', 'r', 'i', 'd', 'g', 'e'].is_prefix_of(e.0@)
                &&& !seq!['u', 't', 'u', 'n'].is_prefix_of(e.0@)
                &&& !seq!['a', 'w', 'd', 'l'].is_prefix_of(e.0@)
                &&& !seq!['l', 'l', 'w'].is_prefix_of(e.0@)
                &&& !seq!['i', 'p', 's', 'e', 'c'].is_prefix_of(e.0@)
                &&& !seq!['v', 'm', 'n', 'e', 't'].is_prefix_of(e.0@)
            },
{
    let pred = |e: (String, InterfaceStats)| shown(e);
    let f = list.filter(pred);
    let keys = f.map_values(|e: (String, InterfaceStats)| traffic_key(e));
    list.lemma_filter_len(pred);
    crate::ranking::lemma_ranked(keys, f.len());
    let r = ranked(keys, f.len());
    let act = active_list(list);
    assert(act == r.map_values(|j: usize| f[j as int]));
    assert forall|k: int| 0 <= k < act.len() implies shown(#[trigger] act[k]) by {
        list.lemma_filter_pred(pred, r[k] as int);
    }
    assert forall|a: int, b: int| 0 <= a < b < act.len() implies traffic_key(#[trigger] act[a])
        >= traffic_key(#[trigger] act[b]) && act[a].1.recv_speed + act[a].1.sent_speed
        >= act[b].1.recv_speed + act[b].1.sent_speed by {
        assert(keys[r[a] as int] >= keys[r[b] as int]);
    }
    assert forall|k: int| 0 <= k < act.len() implies list.contains(#[trigger] act[k]) by {
        list.lemma_filter_pred(pred, r[k] as int);
        assert(f.contains(f[r[k] as int]));
        list.lemma_filter_contains_rev(pred, f[r[k] as int]);
    }
    assert forall|x: (String, InterfaceStats)| list.contains(x) && shown(x) implies #[trigger] act.contains(
        x,
    ) by {
        let i = choose|i: int| 0 <= i < list.len() && list[i] == x;
        list.lemma_filter_contains(pred, i);
        let j = choose|j: int| 0 <= j < f.len() && f[j] == x;
        lemma_permutation_covers(r, f.len(), j);
        let k = choose|k: int| 0 <= k < r.len() && r[k] == j;
        assert(act[k] == x);
    }
}

proof fn lemma_permutation_covers(r: Seq<usize>, n: nat, j: int)
    requires
        crate::ranking::permutes(r, n),
        0 <= j < n,
    ensures
        exists|k: int| 0 <= k < r.len() && r[k] == j,
{
    crate::ranking::lemma_permutes_onto(r, n);
    assert(crate::ranking::lists(r, j));
}

fn rate_of(delta: u64, elapsed_nanos: u64) -> (r: u64)
    ensures
        r == rate(delta as nat, elapsed_nanos as nat),
{
    let e: u128 = if elapsed_nanos < MIN_ELAPSED_NANOS {
        MIN_ELAPSED_NANOS as u128
    } else {
        elapsed_nanos as u128
    };
    let q = (delta as u128) * 1_000_000_000 / e;
    if q > u64::MAX as u128 {
        u64::MAX
    } else {
        q as u64
    }
}

fn has_prefix(chars: &Vec<char>, prefix: &[char]) -> (b: bool)
    ensures
        b == prefix@.is_prefix_of(chars@),
{
    if prefix.len() > chars.len() {
        return false;
    }
    let n = prefix.len();
    for i in 0..n
        invariant
            n == prefix@.len(),
            n <= chars@.len(),
            forall|j: int| 0 <= j < i ==> prefix@[j] == chars@[j],
    {
        if prefix[i] != chars[i] {
            assert(chars@.subrange(0, n as int)[i as int] != prefix@[i as int]);
            return false;
        }
    }
    assert(chars@.subrange(0, n as int) =~= prefix@);
    true
}

fn is_shown(e: &(String, InterfaceStats)) -> (b: bool)
    ensures
        b == shown(*e),
{
    NetworkMonitor::is_real_interface(e.0.as_str()) && (e.1.recv_speed > 0 || e.1.sent_speed > 0
        || e.1.received > 0 || e.1.transmitted > 0)
}

fn stats_for(r: &InterfaceReading, elapsed_nanos: u64) -> (s: InterfaceStats)
    ensures
        s == reading_stats(*r, elapsed_nanos as nat),
{
    InterfaceStats {
        received: r.received,
        transmitted: r.transmitted,
        total_received: r.total_received,
        total_transmitted: r.total_transmitted,
        recv_speed: rate_of(r.received, elapsed_nanos),
        sent_speed: rate_of(r.transmitted, elapsed_nanos),
        mac: r.mac.clone(),
    }
}

impl NetworkMonitor {
    /// The session totals and the total speeds of a refresh with `readings`
    /// all fit in `u64`.
    pub open spec fn refresh_fits(&self, readings: Seq<InterfaceReading>, elapsed_nanos: nat) -> bool {
        let list = refreshed(readings, elapsed_nanos);
        &&& self.total_recv + sum_of(list, |s: InterfaceStats| received_of(s)) <= u64::MAX
        &&& self.total_sent + sum_of(list, |s: InterfaceStats| transmitted_of(s)) <= u64::MAX
        &&& sum_of(list, |s: InterfaceStats| recv_speed_of(s)) <= u64::MAX
        &&& sum_of(list, |s: InterfaceStats| sent_speed_of(s)) <= u64::MAX
    }

    /// A monitor at the start of a session: no interface listed, all totals
    /// zero.
    pub fn new() -> (m: Self)
        ensures
            m.interfaces@.len() == 0,
            m.total_recv == 0,
            m.total_sent == 0,
            m.total_recv_speed == 0,
            m.total_sent_speed == 0,
    {
        NetworkMonitor {
            interfaces: Vec::new(),
            total_recv: 0,
            total_sent: 0,
            total_recv_speed: 0,
            total_sent_speed: 0,
        }
    }

    /// Whether the session totals and total speeds of a refresh with
    /// `readings` fit in `u64`.
    pub fn can_refresh(&self, readings: &Vec<InterfaceReading>, elapsed_nanos: u64) -> (b: bool)
        ensures
            b == self.refresh_fits(readings@, elapsed_nanos as nat),
    {
        let ghost list = refreshed(readings@, elapsed_nanos as nat);
        let n = readings.len();
        let mut a: u128 = self.total_recv as u128;
        let mut b: u128 = self.total_sent as u128;
        let mut c: u128 = 0;
        let mut d: u128 = 0;
        for i in 0..n
            invariant
                n == readings@.len(),
                list == refreshed(readings@, elapsed_nanos as nat),
                a == self.total_recv + sum_of(list.take(i as int), |s: InterfaceStats| received_of(s)),
                b == self.total_sent + sum_of(
                    list.take(i as int),
                    |s: InterfaceStats| transmitted_of(s),
                ),
                c == sum_of(list.take(i as int), |s: InterfaceStats| recv_speed_of(s)),
                d == sum_of(list.take(i as int), |s: InterfaceStats| sent_speed_of(s)),
                a <= u64::MAX,
                b <= u64::MAX,
                c <= u64::MAX,
                d <= u64::MAX,
        {
            let s = stats_for(&readings[i], elapsed_nanos);
            assert(list.take(i + 1).drop_last() =~= list.take(i as int));
            assert(list[i as int].1 == s);
            assert(list.take(i + 1).last() == list[i as int]);
            if a + s.received as u128 > u64::MAX as u128 || b + s.transmitted as u128 > u64::MAX as u128
                || c + s.recv_speed as u128 > u64::MAX as u128 || d + s.sent_speed as u128
                > u64::MAX as u128 {
                proof {
                    lemma_sum_prefix(list, |s: InterfaceStats| received_of(s), i + 1);
                    lemma_sum_prefix(list, |s: InterfaceStats| transmitted_of(s), i + 1);
                    lemma_sum_prefix(list, |s: InterfaceStats| recv_speed_of(s), i + 1);
                    lemma_sum_prefix(list, |s: InterfaceStats| sent_speed_of(s), i + 1);
                }
                return false;
            }
            a = a + s.received as u128;
            b = b + s.transmitted as u128;
            c = c + s.recv_speed as u128;
            d = d + s.sent_speed as u128;
        }
        assert(list.take(n as int) =~= list);
        true
    }

    /// Takes a new reading of every interface, `elapsed_nanos` after the
    /// previous one: each interface's speeds are the bytes it moved since
    /// that reading over that time, the total speeds are sums over the
    /// interfaces, and the session totals grow by all the bytes moved.
    pub fn refresh(&mut self, readings: &Vec<InterfaceReading>, elapsed_nanos: u64)
        requires
            distinct_readings(readings@),
            old(self).refresh_fits(readings@, elapsed_nanos as nat),
        ensures
            final(self).interfaces@ == refreshed(readings@, elapsed_nanos as nat),
            final(self).interfaces@.len() == readings@.len(),
            forall|i: int|
                0 <= i < readings@.len() ==> {
                    let e = #[trigger] final(self).interfaces@[i];
                    let r = readings@[i];
                    &&& e.0 == r.name
                    &&& e.1.received == r.received
                    &&& e.1.transmitted == r.transmitted
                    &&& e.1.total_received == r.total_received
                    &&& e.1.total_transmitted == r.total_transmitted
                    &&& e.1.mac == r.mac
                    &&& is_speed_of(e.1.recv_speed, r.received as nat, elapsed_nanos as nat)
                    &&& is_speed_of(e.1.sent_speed, r.transmitted as nat, elapsed_nanos as nat)
                },
            distinct_interfaces(final(self).interfaces@),
            final(self).total_recv == old(self).total_recv + sum_of(
                final(self).interfaces@,
                |s: InterfaceStats| received_of(s),
            ),
            final(self).total_sent == old(self).total_sent + sum_of(
                final(self).interfaces@,
                |s: InterfaceStats| transmitted_of(s),
            ),
            final(self).total_recv_speed == sum_of(
                final(self).interfaces@,
                |s: InterfaceStats| recv_speed_of(s),
            ),
            final(self).total_sent_speed == sum_of(
                final(self).interfaces@,
                |s: InterfaceStats| sent_speed_of(s),
            ),
    {
        let ghost list = refreshed(readings@, elapsed_nanos as nat);
        let n = readings.len();
        let mut total_recv: u64 = self.total_recv;
        let mut total_sent: u64 = self.total_sent;
        let mut total_recv_speed: u64 = 0;
        let mut total_sent_speed: u64 = 0;
        self.interfaces.clear();
        for i in 0..n
            invariant
                n == readings@.len(),
                list == refreshed(readings@, elapsed_nanos as nat),
                old(self).refresh_fits(readings@, elapsed_nanos as nat),
                self.interfaces@ == list.take(i as int),
                total_recv == old(self).total_recv + sum_of(
                    list.take(i as int),
                    |s: InterfaceStats| received_of(s),
                ),
                total_sent == old(self).total_sent + sum_of(
                    list.take(i as int),
                    |s: InterfaceStats| transmitted_of(s),
                ),
                total_recv_speed == sum_of(
                    list.take(i as int),
                    |s: InterfaceStats| recv_speed_of(s),
                ),
                total_sent_speed == sum_of(
                    list.take(i as int),
                    |s: InterfaceStats| sent_speed_of(s),
                ),
        {
            let r = &readings[i];
            let s = stats_for(r, elapsed_nanos);
            assert(list.take(i + 1).drop_last() =~= list.take(i as int));
            assert(list[i as int] == (r.name, s));
            assert(list.take(i + 1).last() == list[i as int]);
            proof {
                lemma_sum_prefix(list, |s: InterfaceStats| received_of(s), i + 1);
                lemma_sum_prefix(list, |s: InterfaceStats| transmitted_of(s), i + 1);
                lemma_sum_prefix(list, |s: InterfaceStats| recv_speed_of(s), i + 1);
                lemma_sum_prefix(list, |s: InterfaceStats| sent_speed_of(s), i + 1);
            }
            total_recv = total_recv + s.received;
            total_sent = total_sent + s.transmitted;
            total_recv_speed = total_recv_speed + s.recv_speed;
            total_sent_speed = total_sent_speed + s.sent_speed;
            self.interfaces.push((r.name.clone(), s));
            assert(self.interfaces@ =~= list.take(i + 1));
        }
        assert(list.take(n as int) =~= list);
        proof {
            lemma_refreshed(readings@, elapsed_nanos as nat);
        }
        self.total_recv = total_recv;
        self.total_sent = total_sent;
        self.total_recv_speed = total_recv_speed;
        self.total_sent_speed = total_sent_speed;
        assert(distinct_interfaces(self.interfaces@)) by {
            assert forall|a: int, b: int| 0 <= a < b < self.interfaces@.len() implies self.interfaces@[a].0@
                != self.interfaces@[b].0@ by {
                assert(self.interfaces@[a].0 == readings@[a].name);
                assert(self.interfaces@[b].0 == readings@[b].name);
            }
        }
    }

    /// Whether `name` is a physical or user-facing interface rather than
    /// loopback, a bridge, a tunnel or another virtual one.
    pub fn is_real_interface(name: &str) -> (b: bool)
        ensures
            b == real_interface(name@),
    {
        let chars = chars_of(name);
        let lo: [char; 2] = ['l', 'o'];
        let bridge: [char; 6] = ['b', 'r', 'i', 'd', 'g', 'e'];
        let utun: [char; 4] = ['u', 't', 'u', 'n'];
        let awdl: [char; 4] = ['a', 'w', 'd', 'l'];
        let llw: [char; 3] = ['l', 'l', 'w'];
        let ipsec: [char; 5] = ['i', 'p', 's', 'e', 'c'];
        let vmnet: [char; 5] = ['v', 'm', 'n', 'e', 't'];
        assert(lo@ =~= seq!['l', 'o']);
        assert(bridge@ =~= seq!['b', 'r', 'i', 'd', 'g', 'e']);
        assert(utun@ =~= seq!['u', 't', 'u', 'n']);
        assert(awdl@ =~= seq!['a', 'w', 'd', 'l']);
        assert(llw@ =~= seq!['l', 'l', 'w']);
        assert(ipsec@ =~= seq!['i', 'p', 's', 'e', 'c']);
        assert(vmnet@ =~= seq!['v', 'm', 'n', 'e', 't']);
        !has_prefix(&chars, &lo) && !has_prefix(&chars, &bridge) && !has_prefix(&chars, &utun)
            && !has_prefix(&chars, &awdl) && !has_prefix(&chars, &llw) && !has_prefix(
            &chars,
            &ipsec,
        ) && !has_prefix(&chars, &vmnet)
    }

    /// The real interfaces that have carried traffic, busiest first.
    pub fn active_interfaces(&self) -> (v: Vec<(&String, &InterfaceStats)>)
        ensures
            v@.len() == active_list(self.interfaces@).len(),
            forall|k: int|
                0 <= k < v@.len() ==> *v@[k].0 == active_list(self.interfaces@)[k].0
                    && *v@[k].1 == active_list(self.interfaces@)[k].1,
    {
        let ghost pred = |e: (String, InterfaceStats)| shown(e);
        let ghost kf = |e: (String, InterfaceStats)| traffic_key(e);
        let ghost all = self.interfaces@;
        let n = self.interfaces.len();
        let mut picked: Vec<&(String, InterfaceStats)> = Vec::new();
        let mut keys: Vec<u128> = Vec::new();
        for i in 0..n
            invariant
                n == all.len(),
                all == self.interfaces@,
                pred == (|e: (String, InterfaceStats)| shown(e)),
                kf == (|e: (String, InterfaceStats)| traffic_key(e)),
                picked@.len() == all.take(i as int).filter(pred).len(),
                forall|k: int|
                    0 <= k < picked@.len() ==> *picked@[k] == all.take(i as int).filter(pred)[k],
                keys@ == all.take(i as int).filter(pred).map_values(kf),
        {
            let ghost fs = all.take(i as int).filter(pred);
            let e = &self.interfaces[i];
            assert(all.take(i + 1).drop_last() =~= all.take(i as int));
            assert(all.take(i + 1).last() == *e);
            assert(all.take(i + 1).len() == i + 1);
            let show = is_shown(e);
            proof {
                reveal(Seq::filter);
                assert(pred(*e) == show);
                if show {
                    assert(all.take(i + 1).filter(pred) == fs.push(*e));
                } else {
                    assert(all.take(i + 1).filter(pred) == fs);
                }
            }
            if show {
                picked.push(e);
                keys.push(e.1.recv_speed as u128 + e.1.sent_speed as u128);
            }
            assert(keys@ =~= all.take(i + 1).filter(pred).map_values(kf));
        }
        assert(all.take(n as int) =~= all);
        let ghost f = all.filter(pred);
        let order = rank_desc(&keys);
        proof {
            crate::ranking::lemma_ranked(keys@, keys@.len());
        }
        let ghost act = active_list(all);
        assert(act =~= order@.map_values(|j: usize| f[j as int]));
        let mut v: Vec<(&String, &InterfaceStats)> = Vec::new();
        let m = order.len();
        for k in 0..m
            invariant
                m == order@.len(),
                crate::ranking::permutes(order@, keys@.len()),
                picked@.len() == keys@.len(),
                f.len() == keys@.len(),
                forall|j: int| 0 <= j < picked@.len() ==> *picked@[j] == f[j],
                act == order@.map_values(|j: usize| f[j as int]),
                v@.len() == k,
                forall|j: int| 0 <= j < k ==> *v@[j].0 == act[j].0 && *v@[j].1 == act[j].1,
        {
            let e = picked[order[k]];
            v.push((&e.0, &e.1));
        }
        v
    }
}

} // verus!
