//! The series of the congestion graph for one path: congestion window and
//! bytes in flight as the log reports them, and the running totals of data
//! sent, received and lost. A point is the index of its event and a value;
//! round-trip times are floating point and plotted by the caller.
use crate::event_list::strictly_increasing;
use crate::model::{Event, EventData, QlogData, DEFAULT_PACKET_SIZE};
use vstd::prelude::*;

verus! {

/// At most this many points of a series are plotted.
pub const MAX_PLOT_POINTS: usize = 2000;

/// The path that an event is counted under: its packet's or update's path,
/// path 0 where it names none.
pub open spec fn event_path(e: Event) -> u64 {
    match e.data {
        EventData::PacketSent(p) | EventData::PacketReceived(p) => match p.header.path_id {
            Some(x) => x,
            None => 0,
        },
        EventData::PacketLost { header } => match header {
            Some(h) => match h.path_id {
                Some(x) => x,
                None => 0,
            },
            None => 0,
        },
        EventData::MetricsUpdated(m) => match m.path_id {
            Some(x) => x,
            None => 0,
        },
        _ => 0,
    }
}

/// The path that an event is counted under.
pub fn get_event_path(event: &Event) -> (res: u64)
    ensures
        res == event_path(*event),
{
    match &event.data {
        EventData::PacketSent(p) | EventData::PacketReceived(p) => match p.header.path_id {
            Some(x) => x,
            None => 0,
        },
        EventData::PacketLost { header } => match header {
            Some(h) => match h.path_id {
                Some(x) => x,
                None => 0,
            },
            None => 0,
        },
        EventData::MetricsUpdated(m) => match m.path_id {
            Some(x) => x,
            None => 0,
        },
        _ => 0,
    }
}

/// The paths of the first `n` events.
pub open spec fn paths_of(events: Seq<Event>, n: nat) -> Set<u64>
    decreases n,
{
    if n == 0 {
        Set::empty()
    } else {
        paths_of(events, (n - 1) as nat).insert(event_path(events[n - 1]))
    }
}

/// Adds `x` to a strictly increasing vector, keeping it so.
fn insert_sorted(v: &mut Vec<u64>, x: u64)
    requires
        strictly_increasing(old(v)@),
    ensures
        strictly_increasing(final(v)@),
        final(v)@.to_set() == old(v)@.to_set().insert(x),
{
    let mut k: usize = 0;
    while k < v.len() && v[k] < x
        invariant
            k <= v@.len(),
            v@ == old(v)@,
            strictly_increasing(v@),
            forall|a: int| 0 <= a < k ==> v@[a] < x,
        decreases v@.len() - k,
    {
        k = k + 1;
    }
    if k < v.len() && v[k] == x {
        proof {
            assert(v@.to_set() =~= v@.to_set().insert(x)) by {
                assert(v@.contains(x));
            }
        }
        return;
    }
    let ghost before = v@;
    v.insert(k, x);
    proof {
        assert forall|a: int, b: int| 0 <= a < b < v@.len() implies v@[a] < v@[b] by {
            if b < k {
                assert(v@[a] == before[a] && v@[b] == before[b]);
            } else if b == k {
                assert(v@[a] == before[a]);
            } else if a < k {
                assert(v@[a] == before[a] && v@[b] == before[b - 1]);
                if b - 1 > k {
                    assert(before[k as int] < before[b - 1]);
                }
            } else if a == k {
                assert(v@[b] == before[b - 1]);
                if b - 1 > k {
                    assert(before[k as int] < before[b - 1]);
                }
            } else {
                assert(v@[a] == before[a - 1] && v@[b] == before[b - 1]);
            }
        }
        assert forall|y: u64| v@.to_set().contains(y) <==> before.to_set().insert(x).contains(y) by {
            if v@.to_set().contains(y) {
                let j = choose|j: int| 0 <= j < v@.len() && v@[j] == y;
                if j < k {
                    assert(before[j] == y);
                } else if j > k {
                    assert(before[j - 1] == y);
                }
            }
            if before.to_set().contains(y) && y != x {
                let j = choose|j: int| 0 <= j < before.len() && before[j] == y;
                if j < k {
                    assert(v@[j] == y);
                } else {
                    assert(v@[j + 1] == y);
                }
            }
            if y == x {
                assert(v@[k as int] == x);
            }
        }
        assert(v@.to_set() =~= before.to_set().insert(x));
    }
}

/// The paths of a trace, in increasing order, each once.
pub fn collect_path_ids(qlog: &QlogData) -> (res: Vec<u64>)
    ensures
        strictly_increasing(res@),
        res@.to_set() == paths_of(qlog.events@, qlog.events@.len()),
{
    let mut res: Vec<u64> = Vec::new();
    let mut i: usize = 0;
    proof {
        assert(res@.to_set() =~= Set::<u64>::empty());
    }
    while i < qlog.events.len()
        invariant
            i <= qlog.events@.len(),
            strictly_increasing(res@),
            res@.to_set() == paths_of(qlog.events@, i as nat),
        decreases qlog.events@.len() - i,
    {
        insert_sorted(&mut res, get_event_path(&qlog.events[i]));
        i = i + 1;
    }
    res
}

/// The path to show: the chosen one where the trace has it, else the first
/// of the trace's paths, else path 0.
pub fn select_path(available: &Vec<u64>, selected: u64) -> (res: u64)
    ensures
        res == if available@.contains(selected) {
            selected
        } else if available@.len() > 0 {
            available@[0]
        } else {
            0
        },
{
    let mut k: usize = 0;
    while k < available.len()
        invariant
            k <= available@.len(),
            forall|j: int| 0 <= j < k ==> available@[j] != selected,
        decreases available@.len() - k,
    {
        if available[k] == selected {
            return selected;
        }
        k = k + 1;
    }
    if available.len() > 0 {
        available[0]
    } else {
        0
    }
}

/// The series of one path, as exact values.
pub ghost struct SeriesWalk {
    pub cwnd: Seq<(usize, u64)>,
    pub bytes_in_flight: Seq<(usize, u64)>,
    pub data_sent: Seq<(usize, nat)>,
    pub data_received: Seq<(usize, nat)>,
    pub data_lost: Seq<(usize, nat)>,
    pub sent_total: nat,
    pub received_total: nat,
    pub lost_total: nat,
    pub metrics_event_count: nat,
    pub packets_sent: nat,
    pub packets_received: nat,
}

/// The series of path `path` over the first `n` events. A packet counts its
/// raw length, or the default packet size; a loss counts the default size.
pub open spec fn series_walk(events: Seq<Event>, path: u64, n: nat) -> SeriesWalk
    decreases n,
{
    if n == 0 {
        SeriesWalk {
            cwnd: Seq::empty(),
            bytes_in_flight: Seq::empty(),
            data_sent: Seq::empty(),
            data_received: Seq::empty(),
            data_lost: Seq::empty(),
            sent_total: 0,
            received_total: 0,
            lost_total: 0,
            metrics_event_count: 0,
            packets_sent: 0,
            packets_received: 0,
        }
    } else {
        let w = series_walk(events, path, (n - 1) as nat);
        let i = (n - 1) as usize;
        let e = events[n - 1];
        if event_path(e) != path {
            w
        } else {
            match e.data {
                EventData::MetricsUpdated(m) => SeriesWalk {
                    metrics_event_count: w.metrics_event_count + 1,
                    cwnd: match m.congestion_window {
                        Some(c) => w.cwnd.push((i, c)),
                        None => w.cwnd,
                    },
                    bytes_in_flight: match m.bytes_in_flight {
                        Some(b) => w.bytes_in_flight.push((i, b)),
                        None => w.bytes_in_flight,
                    },
                    ..w
                },
                EventData::PacketSent(p) => {
                    let total = w.sent_total + match p.raw_length {
                        Some(l) => l as nat,
                        None => DEFAULT_PACKET_SIZE as nat,
                    };
                    SeriesWalk {
                        packets_sent: w.packets_sent + 1,
                        sent_total: total,
                        data_sent: w.data_sent.push((i, total)),
                        ..w
                    }
                },
                EventData::PacketReceived(p) => {
                    let total = w.received_total + match p.raw_length {
                        Some(l) => l as nat,
                        None => DEFAULT_PACKET_SIZE as nat,
                    };
                    SeriesWalk {
                        packets_received: w.packets_received + 1,
                        received_total: total,
                        data_received: w.data_received.push((i, total)),
                        ..w
                    }
                },
                EventData::PacketLost { .. } => {
                    let total = w.lost_total + DEFAULT_PACKET_SIZE as nat;
                    SeriesWalk { lost_total: total, data_lost: w.data_lost.push((i, total)), ..w }
                },
                _ => w,
            }
        }
    }
}

/// Whether the running totals of path `path` fit in `u64`.
pub open spec fn series_fit(events: Seq<Event>, path: u64) -> bool {
    let w = series_walk(events, path, events.len());
    w.sent_total <= u64::MAX && w.received_total <= u64::MAX && w.lost_total <= u64::MAX
}

/// The series of one path, before they are thinned for plotting.
pub struct CongestionSeries {
    pub cwnd: Vec<(usize, u64)>,
    pub bytes_in_flight: Vec<(usize, u64)>,
    pub data_sent: Vec<(usize, u64)>,
    pub data_received: Vec<(usize, u64)>,
    pub data_lost: Vec<(usize, u64)>,
    pub metrics_event_count: usize,
    pub packets_sent: u64,
    pub packets_received: u64,
}

/// Whether stored points equal exact ones.
pub open spec fn points_match(v: Seq<(usize, u64)>, s: Seq<(usize, nat)>) -> bool {
    &&& v.len() == s.len()
    &&& forall|k: int| 0 <= k < v.len() ==> (#[trigger] v[k]).0 == s[k].0 && v[k].1 == s[k].1
}

impl CongestionSeries {
    /// Whether the series are those of walk `w`.
    pub open spec fn holds(&self, w: SeriesWalk) -> bool {
        &&& self.cwnd@ == w.cwnd
        &&& self.bytes_in_flight@ == w.bytes_in_flight
        &&& points_match(self.data_sent@, w.data_sent)
        &&& points_match(self.data_received@, w.data_received)
        &&& points_match(self.data_lost@, w.data_lost)
        &&& self.metrics_event_count == w.metrics_event_count
        &&& self.packets_sent == w.packets_sent
        &&& self.packets_received == w.packets_received
    }
}

proof fn lemma_series_grows(events: Seq<Event>, path: u64, j: nat, k: nat)
    requires
        j <= k,
    ensures
        series_walk(events, path, j).sent_total <= series_walk(events, path, k).sent_total,
        series_walk(events, path, j).received_total <= series_walk(events, path, k).received_total,
        series_walk(events, path, j).lost_total <= series_walk(events, path, k).lost_total,
        series_walk(events, path, j).metrics_event_count <= j,
        series_walk(events, path, j).packets_sent <= j,
        series_walk(events, path, j).packets_received <= j,
    decreases k,
{
    if j < k {
        lemma_series_grows(events, path, j, (k - 1) as nat);
    } else if j > 0 {
        lemma_series_grows(events, path, (j - 1) as nat, (j - 1) as nat);
    }
}

/// Whether the running totals of path `path` fit in `u64`, so that
/// `extract_series` may be called.
pub fn series_fits(qlog: &QlogData, path: u64) -> (res: bool)
    ensures
        res == series_fit(qlog.events@, path),
{
    let events = &qlog.events;
    let mut sent_total: u64 = 0;
    let mut received_total: u64 = 0;
    let mut lost_total: u64 = 0;
    let mut i: usize = 0;
    while i < events.len()
        invariant
            i <= events@.len(),
            events@ == qlog.events@,
            sent_total == series_walk(events@, path, i as nat).sent_total,
            received_total == series_walk(events@, path, i as nat).received_total,
            lost_total == series_walk(events@, path, i as nat).lost_total,
        decreases events@.len() - i,
    {
        proof {
            lemma_series_grows(events@, path, (i + 1) as nat, events@.len());
        }
        let event = &events[i];
        if get_event_path(event) == path {
            match &event.data {
                EventData::PacketSent(p) => {
                    let size = match p.raw_length {
                        Some(l) => l,
                        None => DEFAULT_PACKET_SIZE,
                    };
                    match sent_total.checked_add(size) {
                        Some(v) => sent_total = v,
                        None => return false,
                    }
                },
                EventData::PacketReceived(p) => {
                    let size = match p.raw_length {
                        Some(l) => l,
                        None => DEFAULT_PACKET_SIZE,
                    };
                    match received_total.checked_add(size) {
                        Some(v) => received_total = v,
                        None => return false,
                    }
                },
                EventData::PacketLost { .. } => {
                    match lost_total.checked_add(DEFAULT_PACKET_SIZE) {
                        Some(v) => lost_total = v,
                        None => return false,
                    }
                },
                _ => {},
            }
        }
        i = i + 1;
    }
    true
}

/// The congestion graph's series for path `path`, in trace order.
pub fn extract_series(qlog: &QlogData, path: u64) -> (res: CongestionSeries)
    requires
        series_fit(qlog.events@, path),
    ensures
        res.holds(series_walk(qlog.events@, path, qlog.events@.len())),
{
    let events = &qlog.events;
    let ghost total = series_walk(events@, path, events@.len());
    let mut res = CongestionSeries {
        cwnd: Vec::new(),
        bytes_in_flight: Vec::new(),
        data_sent: Vec::new(),
        data_received: Vec::new(),
        data_lost: Vec::new(),
        metrics_event_count: 0,
        packets_sent: 0,
        packets_received: 0,
    };
    let mut sent_total: u64 = 0;
    let mut received_total: u64 = 0;
    let mut lost_total: u64 = 0;
    let mut i: usize = 0;
    while i < events.len()
        invariant
            i <= events@.len(),
            total == series_walk(events@, path, events@.len()),
            total.sent_total <= u64::MAX,
            total.received_total <= u64::MAX,
            total.lost_total <= u64::MAX,
            res.holds(series_walk(events@, path, i as nat)),
            sent_total == series_walk(events@, path, i as nat).sent_total,
            received_total == series_walk(events@, path, i as nat).received_total,
            lost_total == series_walk(events@, path, i as nat).lost_total,
        decreases events@.len() - i,
    {
        proof {
            lemma_series_grows(events@, path, (i + 1) as nat, events@.len());
            lemma_series_grows(events@, path, i as nat, i as nat);
        }
        let ghost w = series_walk(events@, path, i as nat);
        let event = &events[i];
        if get_event_path(event) == path {
            match &event.data {
                EventData::MetricsUpdated(m) => {
                    res.metrics_event_count = res.metrics_event_count + 1;
                    if let Some(c) = m.congestion_window {
                        res.cwnd.push((i, c));
                    }
                    if let Some(b) = m.bytes_in_flight {
                        res.bytes_in_flight.push((i, b));
                    }
                },
                EventData::PacketSent(p) => {
                    res.packets_sent = res.packets_sent + 1;
                    let size = match p.raw_length {
                        Some(l) => l,
                        None => DEFAULT_PACKET_SIZE,
                    };
                    sent_total = sent_total + size;
                    res.data_sent.push((i, sent_total));
                },
                EventData::PacketReceived(p) => {
                    res.packets_received = res.packets_received + 1;
                    let size = match p.raw_length {
                        Some(l) => l,
                        None => DEFAULT_PACKET_SIZE,
                    };
                    received_total = received_total + size;
                    res.data_received.push((i, received_total));
                },
                EventData::PacketLost { .. } => {
                    lost_total = lost_total + DEFAULT_PACKET_SIZE;
                    res.data_lost.push((i, lost_total));
                },
                _ => {},
            }
        }
        proof {
            let w1 = series_walk(events@, path, (i + 1) as nat);
            assert(points_match(res.data_sent@, w1.data_sent));
            assert(points_match(res.data_received@, w1.data_received));
            assert(points_match(res.data_lost@, w1.data_lost));
        }
        i = i + 1;
    }
    res
}

/// The positions that thinning keeps: every `step`-th from the first, at
/// most `max` of them, where there are more than `max` points; all of them
/// otherwise.
pub open spec fn kept_positions(len: nat, max: nat) -> Seq<int> {
    if len <= max {
        Seq::new(len, |k: int| k)
    } else {
        let step: int = len as int / max as int;
        let count: int = if (len as int + step - 1) / step < max as int {
            (len as int + step - 1) / step
        } else {
            max as int
        };
        Seq::new(count as nat, |k: int| k * step)
    }
}

/// Thins a series to at most `max` points, keeping every `len / max`-th one
/// from the first.
pub fn downsample<T: Copy>(points: &Vec<T>, max: usize) -> (res: Vec<T>)
    requires
        max > 0 || points@.len() == 0,
    ensures
        res@.len() == kept_positions(points@.len(), max as nat).len(),
        forall|k: int| 0 <= k < res@.len() ==> res@[k] == points@[#[trigger] kept_positions(
            points@.len(),
            max as nat,
        )[k]],
        res@.len() <= max,
{
    let len = points.len();
    let mut res: Vec<T> = Vec::new();
    if len <= max {
        let mut k: usize = 0;
        while k < len
            invariant
                k <= len,
                len == points@.len(),
                len <= max,
                res@.len() == k,
                forall|j: int| 0 <= j < k ==> res@[j] == points@[j],
            decreases len - k,
        {
            res.push(points[k]);
            k = k + 1;
        }
        return res;
    }
    let step = len / max;
    proof {
        assert(step >= 1 && step * max <= len) by (nonlinear_arith)
            requires
                step == len / max,
                len > max,
                max > 0,
        ;
    }
    let mut pos: usize = 0;
    let mut k: usize = 0;
    while pos < len && k < max
        invariant
            len == points@.len(),
            len > max,
            max > 0,
            step == len / max,
            step >= 1,
            step * max <= len,
            pos == k * step,
            k <= max,
            pos <= len,
            res@.len() == k,
            forall|j: int| 0 <= j < k ==> res@[j] == points@[j * step],
            k > 0 ==> (k - 1) * step < len,
        decreases max - k,
    {
        res.push(points[pos]);
        proof {
            assert((k + 1) * step == k * step + step) by (nonlinear_arith);
            assert(k * step + step <= len) by (nonlinear_arith)
                requires
                    k < max,
                    step * max <= len,
                    step >= 1,
            ;
        }
        k = k + 1;
        pos = pos + step;
    }
    proof {
        let l: int = len as int;
        let st: int = step as int;
        let mx: int = max as int;
        let kk: int = k as int;
        let count: int = if (l + st - 1) / st < mx {
            (l + st - 1) / st
        } else {
            mx
        };
        assert(kk == count) by (nonlinear_arith)
            requires
                st >= 1,
                kk <= mx,
                kk > 0,
                (kk - 1) * st < l,
                kk == mx || kk * st >= l,
                kk * st <= l,
                count == (if (l + st - 1) / st < mx {
                    (l + st - 1) / st
                } else {
                    mx
                }),
        ;
        assert(st == l / mx);
    }
    res
}

} // verus!
