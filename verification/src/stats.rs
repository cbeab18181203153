//! Connection statistics: packets and bytes per direction, and per stream.
//!
//! Round-trip times, the loss rate and durations are floating-point values;
//! they are computed by the caller from the events that these counts name.
use crate::correlation::PacketCorrelation;
use crate::model::{Event, EventData, PacketEvent, QlogData, QuicFrame, DEFAULT_PACKET_SIZE};
use crate::text::{chars_of, contains, to_lowercase, unicode_lower, vec_contains};
use std::collections::HashMap;
use vstd::prelude::*;

verus! {

broadcast use vstd::std_specs::hash::group_hash_axioms;

/// Traffic of one stream.
#[derive(Debug, Clone, Copy, PartialEq, Eq, Structural)]
pub struct StreamStats {
    pub bytes_sent: u64,
    pub bytes_received: u64,
    pub frames_sent: u64,
    pub frames_received: u64,
}

impl Default for StreamStats {
    fn default() -> (res: Self)
        ensures
            res == (StreamStats { bytes_sent: 0, bytes_received: 0, frames_sent: 0, frames_received: 0 }),
    {
        StreamStats { bytes_sent: 0, bytes_received: 0, frames_sent: 0, frames_received: 0 }
    }
}

/// Traffic of one stream, as exact counts.
pub ghost struct StreamTally {
    pub bytes_sent: nat,
    pub bytes_received: nat,
    pub frames_sent: nat,
    pub frames_received: nat,
}

/// A tally of nothing.
pub open spec fn zero_tally() -> StreamTally {
    StreamTally { bytes_sent: 0, bytes_received: 0, frames_sent: 0, frames_received: 0 }
}

/// Whether the stored stream traffic equals the exact tally.
pub open spec fn stats_match(s: StreamStats, t: StreamTally) -> bool {
    &&& s.bytes_sent == t.bytes_sent
    &&& s.bytes_received == t.bytes_received
    &&& s.frames_sent == t.frames_sent
    &&& s.frames_received == t.frames_received
}

/// The estimated wire size of a frame: its recorded length plus a header for
/// STREAM and CRYPTO frames, a typical size for the others.
pub open spec fn frame_estimate(f: QuicFrame) -> nat {
    match f {
        QuicFrame::Stream { raw_length, .. } => match raw_length {
            Some(l) => l as nat + 3,
            None => 3,
        },
        QuicFrame::Crypto { raw_length } => match raw_length {
            Some(l) => l as nat + 2,
            None => 2,
        },
        QuicFrame::Ack { .. } => 20,
        QuicFrame::Padding { .. } => 1,
        QuicFrame::Ping => 1,
        QuicFrame::ResetStream { .. } => 15,
        QuicFrame::StopSending { .. } => 10,
        QuicFrame::NewConnectionId => 30,
        QuicFrame::RetireConnectionId => 5,
        QuicFrame::PathChallenge => 9,
        QuicFrame::PathResponse => 9,
        QuicFrame::ConnectionClose => 20,
        QuicFrame::HandshakeDone => 1,
        QuicFrame::MaxData => 8,
        QuicFrame::MaxStreamData { .. } => 10,
        QuicFrame::MaxStreams => 8,
        QuicFrame::DataBlocked => 8,
        QuicFrame::StreamDataBlocked { .. } => 10,
        QuicFrame::StreamsBlocked => 8,
        QuicFrame::NewToken => 50,
        _ => 10,
    }
}

/// The estimated size of the first `m` frames.
pub open spec fn frames_estimate(fs: Seq<QuicFrame>, m: nat) -> nat
    decreases m,
{
    if m == 0 {
        0
    } else {
        frames_estimate(fs, (m - 1) as nat) + frame_estimate(fs[m - 1])
    }
}

/// The size counted for a packet: its raw length; else its frames' estimate
/// plus a 20-byte header; else the default packet size.
pub open spec fn packet_estimate(p: PacketEvent) -> nat {
    match p.raw_length {
        Some(l) => l as nat,
        None => match p.frames {
            Some(fs) => frames_estimate(fs@, fs@.len()) + 20,
            None => DEFAULT_PACKET_SIZE as nat,
        },
    }
}

/// The tallies after counting STREAM frame `f` of a sent (`sent`) or received
/// packet.
pub open spec fn stream_step(m: Map<u64, StreamTally>, f: QuicFrame, sent: bool) -> Map<u64, StreamTally> {
    match f {
        QuicFrame::Stream { stream_id, raw_length, .. } => {
            let t = if m.contains_key(stream_id) {
                m[stream_id]
            } else {
                zero_tally()
            };
            let len: nat = match raw_length {
                Some(l) => l as nat,
                None => 0,
            };
            let t2 = if sent {
                StreamTally { bytes_sent: t.bytes_sent + len, frames_sent: t.frames_sent + 1, ..t }
            } else {
                StreamTally { bytes_received: t.bytes_received + len, frames_received: t.frames_received + 1, ..t }
            };
            m.insert(stream_id, t2)
        },
        _ => m,
    }
}

/// The tallies after counting the first `k` frames.
pub open spec fn stream_walk(m: Map<u64, StreamTally>, fs: Seq<QuicFrame>, k: nat, sent: bool) -> Map<u64, StreamTally>
    decreases k,
{
    if k == 0 {
        m
    } else {
        stream_step(stream_walk(m, fs, (k - 1) as nat, sent), fs[k - 1], sent)
    }
}

/// Whether a connection state, as the log names it, marks the end of the
/// handshake.
pub open spec fn ends_handshake(state: Seq<char>) -> bool {
    contains(unicode_lower(state), "handshake_done"@) || contains(unicode_lower(state), "connected"@)
}

/// The exact statistics over a prefix of the events.
pub ghost struct StatsWalk {
    pub packets_sent: nat,
    pub packets_received: nat,
    pub bytes_sent: nat,
    pub bytes_received: nat,
    pub streams: Map<u64, StreamTally>,
    pub handshake_start: Option<nat>,
    pub handshake_end: Option<nat>,
}

/// The statistics of the first `n` events.
pub open spec fn stats_walk(events: Seq<Event>, n: nat) -> StatsWalk
    decreases n,
{
    if n == 0 {
        StatsWalk {
            packets_sent: 0,
            packets_received: 0,
            bytes_sent: 0,
            bytes_received: 0,
            streams: Map::empty(),
            handshake_start: None,
            handshake_end: None,
        }
    } else {
        let w = stats_walk(events, (n - 1) as nat);
        let i = (n - 1) as nat;
        match events[n - 1].data {
            EventData::PacketSent(p) => StatsWalk {
                packets_sent: w.packets_sent + 1,
                bytes_sent: w.bytes_sent + packet_estimate(p),
                streams: match p.frames {
                    Some(fs) => stream_walk(w.streams, fs@, fs@.len(), true),
                    None => w.streams,
                },
                ..w
            },
            EventData::PacketReceived(p) => StatsWalk {
                packets_received: w.packets_received + 1,
                bytes_received: w.bytes_received + packet_estimate(p),
                streams: match p.frames {
                    Some(fs) => stream_walk(w.streams, fs@, fs@.len(), false),
                    None => w.streams,
                },
                ..w
            },
            EventData::ConnectionStarted => StatsWalk {
                handshake_start: match w.handshake_start {
                    Some(s) => Some(s),
                    None => Some(i),
                },
                ..w
            },
            EventData::ConnectionStateUpdated { new_state } => StatsWalk {
                handshake_end: match w.handshake_end {
                    Some(s) => Some(s),
                    None => if ends_handshake(new_state@) {
                        Some(i)
                    } else {
                        None
                    },
                },
                ..w
            },
            _ => w,
        }
    }
}

/// Whether every tally of the statistics fits in `u64`.
pub open spec fn walk_fits(w: StatsWalk) -> bool {
    &&& w.bytes_sent <= u64::MAX
    &&& w.bytes_received <= u64::MAX
    &&& forall|id: u64| #[trigger] w.streams.contains_key(id) ==> {
        let t = w.streams[id];
        &&& t.bytes_sent <= u64::MAX
        &&& t.bytes_received <= u64::MAX
        &&& t.frames_sent <= u64::MAX
        &&& t.frames_received <= u64::MAX
    }
}

/// Whether the statistics of `events` fit in `u64`.
pub open spec fn stats_fit(events: Seq<Event>) -> bool {
    walk_fits(stats_walk(events, events.len()))
}

/// Whether the tallies of `m` are no larger than those of `big`, stream by stream.
pub open spec fn tallies_within(m: Map<u64, StreamTally>, big: Map<u64, StreamTally>) -> bool {
    forall|id: u64| #[trigger] m.contains_key(id) ==> big.contains_key(id) && {
        let t = m[id];
        let b = big[id];
        &&& t.bytes_sent <= b.bytes_sent
        &&& t.bytes_received <= b.bytes_received
        &&& t.frames_sent <= b.frames_sent
        &&& t.frames_received <= b.frames_received
    }
}

proof fn lemma_frames_estimate_grows(fs: Seq<QuicFrame>, m: nat, k: nat)
    requires
        m <= k,
    ensures
        frames_estimate(fs, m) <= frames_estimate(fs, k),
    decreases k - m,
{
    if m < k {
        lemma_frames_estimate_grows(fs, m, (k - 1) as nat);
    }
}

proof fn lemma_stream_walk_grows(m: Map<u64, StreamTally>, fs: Seq<QuicFrame>, j: nat, k: nat, sent: bool)
    requires
        j <= k,
    ensures
        tallies_within(stream_walk(m, fs, j, sent), stream_walk(m, fs, k, sent)),
    decreases k - j,
{
    if j < k {
        lemma_stream_walk_grows(m, fs, j, (k - 1) as nat, sent);
        let a = stream_walk(m, fs, j, sent);
        let b = stream_walk(m, fs, (k - 1) as nat, sent);
        let c = stream_walk(m, fs, k, sent);
        assert forall|id: u64| #[trigger] a.contains_key(id) implies c.contains_key(id) && {
            let t = a[id];
            let u = c[id];
            &&& t.bytes_sent <= u.bytes_sent
            &&& t.bytes_received <= u.bytes_received
            &&& t.frames_sent <= u.frames_sent
            &&& t.frames_received <= u.frames_received
        } by {
            assert(b.contains_key(id));
        }
    } else {
        let a = stream_walk(m, fs, j, sent);
        assert(tallies_within(a, a));
    }
}

proof fn lemma_stream_walk_from(m: Map<u64, StreamTally>, big: Map<u64, StreamTally>, fs: Seq<QuicFrame>, k: nat, sent: bool)
    requires
        tallies_within(m, big),
    ensures
        tallies_within(m, stream_walk(m, fs, k, sent)),
    decreases k,
{
    if k > 0 {
        lemma_stream_walk_from(m, big, fs, (k - 1) as nat, sent);
        let b = stream_walk(m, fs, (k - 1) as nat, sent);
        let c = stream_walk(m, fs, k, sent);
        assert forall|id: u64| #[trigger] m.contains_key(id) implies c.contains_key(id) && {
            let t = m[id];
            let u = c[id];
            &&& t.bytes_sent <= u.bytes_sent
            &&& t.bytes_received <= u.bytes_received
            &&& t.frames_sent <= u.frames_sent
            &&& t.frames_received <= u.frames_received
        } by {
            assert(b.contains_key(id));
        }
    }
}

proof fn lemma_tallies_within_trans(a: Map<u64, StreamTally>, b: Map<u64, StreamTally>, c: Map<u64, StreamTally>)
    requires
        tallies_within(a, b),
        tallies_within(b, c),
    ensures
        tallies_within(a, c),
{
    assert forall|id: u64| #[trigger] a.contains_key(id) implies c.contains_key(id) && {
        let t = a[id];
        let u = c[id];
        &&& t.bytes_sent <= u.bytes_sent
        &&& t.bytes_received <= u.bytes_received
        &&& t.frames_sent <= u.frames_sent
        &&& t.frames_received <= u.frames_received
    } by {
        assert(b.contains_key(id));
    }
}

proof fn lemma_stats_walk_grows(events: Seq<Event>, j: nat, k: nat)
    requires
        j <= k,
    ensures
        stats_walk(events, j).bytes_sent <= stats_walk(events, k).bytes_sent,
        stats_walk(events, j).bytes_received <= stats_walk(events, k).bytes_received,
        stats_walk(events, j).packets_sent <= j,
        stats_walk(events, j).packets_received <= j,
        tallies_within(stats_walk(events, j).streams, stats_walk(events, k).streams),
    decreases k,
{
    if k == 0 {
        assert(tallies_within(stats_walk(events, 0).streams, stats_walk(events, 0).streams));
    } else if j == k {
        lemma_stats_walk_grows(events, (j - 1) as nat, (j - 1) as nat);
        let a = stats_walk(events, j).streams;
        assert(tallies_within(a, a));
    } else {
        lemma_stats_walk_grows(events, j, (k - 1) as nat);
        let w = stats_walk(events, (k - 1) as nat);
        match events[k - 1].data {
            EventData::PacketSent(p) => {
                if let Some(fs) = p.frames {
                    lemma_stream_walk_from(w.streams, w.streams, fs@, fs@.len(), true);
                }
            },
            EventData::PacketReceived(p) => {
                if let Some(fs) = p.frames {
                    lemma_stream_walk_from(w.streams, w.streams, fs@, fs@.len(), false);
                }
            },
            _ => {},
        }
        lemma_tallies_within_trans(stats_walk(events, j).streams, w.streams, stats_walk(events, k).streams);
    }
}

/// Whether every tally of `m` fits in `u64`.
pub open spec fn tallies_fit(m: Map<u64, StreamTally>) -> bool {
    forall|id: u64| #[trigger] m.contains_key(id) ==> {
        let t = m[id];
        &&& t.bytes_sent <= u64::MAX
        &&& t.bytes_received <= u64::MAX
        &&& t.frames_sent <= u64::MAX
        &&& t.frames_received <= u64::MAX
    }
}

proof fn lemma_tallies_fit_within(a: Map<u64, StreamTally>, b: Map<u64, StreamTally>)
    requires
        tallies_within(a, b),
        tallies_fit(b),
    ensures
        tallies_fit(a),
{
    assert forall|id: u64| #[trigger] a.contains_key(id) implies {
        let t = a[id];
        &&& t.bytes_sent <= u64::MAX
        &&& t.bytes_received <= u64::MAX
        &&& t.frames_sent <= u64::MAX
        &&& t.frames_received <= u64::MAX
    } by {
        assert(b.contains_key(id));
    }
}

/// The estimated wire size of a frame, where it fits in `u64`.
fn frame_size_checked(frame: &QuicFrame) -> (res: Option<u64>)
    ensures
        match res {
            Some(v) => v == frame_estimate(*frame),
            None => frame_estimate(*frame) > u64::MAX,
        },
{
    match frame {
        QuicFrame::Stream { raw_length: Some(l), .. } => l.checked_add(3),
        QuicFrame::Crypto { raw_length: Some(l) } => l.checked_add(2),
        _ => Some(ConnectionStats::estimate_frame_size(frame)),
    }
}

/// The size counted for a packet, where it fits in `u64`.
fn packet_size_checked(p: &PacketEvent) -> (res: Option<u64>)
    ensures
        match res {
            Some(v) => v == packet_estimate(*p),
            None => packet_estimate(*p) > u64::MAX,
        },
{
    match p.raw_length {
        Some(l) => Some(l),
        None => match &p.frames {
            Some(fs) => {
                let mut acc: u64 = 0;
                let mut m: usize = 0;
                while m < fs.len()
                    invariant
                        m <= fs@.len(),
                        acc == frames_estimate(fs@, m as nat),
                        packet_estimate(*p) == frames_estimate(fs@, fs@.len()) + 20,
                    decreases fs@.len() - m,
                {
                    proof {
                        lemma_frames_estimate_grows(fs@, (m + 1) as nat, fs@.len());
                    }
                    let f = match frame_size_checked(&fs[m]) {
                        Some(f) => f,
                        None => return None,
                    };
                    acc = match acc.checked_add(f) {
                        Some(a) => a,
                        None => return None,
                    };
                    m = m + 1;
                }
                acc.checked_add(20)
            },
            None => Some(DEFAULT_PACKET_SIZE),
        },
    }
}

/// Counts the STREAM frames of one packet into the per-stream statistics
/// while every tally fits in `u64`; tells whether all of them did.
fn count_stream_frames_checked(
    groups: &mut HashMap<u64, StreamStats>,
    fs: &Vec<QuicFrame>,
    sent: bool,
    Ghost(start): Ghost<Map<u64, StreamTally>>,
) -> (ok: bool)
    requires
        old(groups)@.dom() == start.dom(),
        forall|id: u64| #[trigger] old(groups)@.contains_key(id) ==> stats_match(old(groups)@[id], start[id]),
    ensures
        ok == tallies_fit(stream_walk(start, fs@, fs@.len(), sent)),
        ok ==> final(groups)@.dom() == stream_walk(start, fs@, fs@.len(), sent).dom(),
        ok ==> forall|id: u64| #[trigger] final(groups)@.contains_key(id) ==> stats_match(
            final(groups)@[id],
            stream_walk(start, fs@, fs@.len(), sent)[id],
        ),
{
    let mut m: usize = 0;
    while m < fs.len()
        invariant
            m <= fs@.len(),
            groups@.dom() == stream_walk(start, fs@, m as nat, sent).dom(),
            forall|id: u64| #[trigger] groups@.contains_key(id) ==> stats_match(
                groups@[id],
                stream_walk(start, fs@, m as nat, sent)[id],
            ),
        decreases fs@.len() - m,
    {
        proof {
            lemma_stream_walk_grows(start, fs@, (m + 1) as nat, fs@.len(), sent);
        }
        let ghost next = stream_walk(start, fs@, (m + 1) as nat, sent);
        let ghost last = stream_walk(start, fs@, fs@.len(), sent);
        if let QuicFrame::Stream { stream_id, raw_length, .. } = &fs[m] {
            let id = *stream_id;
            let len: u64 = match raw_length {
                Some(l) => *l,
                None => 0,
            };
            let old_stats: StreamStats = match groups.get(&id) {
                Some(s) => *s,
                None => StreamStats::default(),
            };
            assert(next.contains_key(id));
            let (bytes, frames) = if sent {
                (old_stats.bytes_sent.checked_add(len), old_stats.frames_sent.checked_add(1))
            } else {
                (old_stats.bytes_received.checked_add(len), old_stats.frames_received.checked_add(1))
            };
            if bytes.is_none() || frames.is_none() {
                proof {
                    assert(last.contains_key(id));
                }
                return false;
            }
            let new_stats = if sent {
                StreamStats { bytes_sent: bytes.unwrap(), frames_sent: frames.unwrap(), ..old_stats }
            } else {
                StreamStats { bytes_received: bytes.unwrap(), frames_received: frames.unwrap(), ..old_stats }
            };
            groups.insert(id, new_stats);
            proof {
                assert(groups@.dom() =~= next.dom());
            }
        }
        m = m + 1;
    }
    proof {
        let last = stream_walk(start, fs@, fs@.len(), sent);
        assert forall|id: u64| #[trigger] last.contains_key(id) implies {
            let t = last[id];
            &&& t.bytes_sent <= u64::MAX
            &&& t.bytes_received <= u64::MAX
            &&& t.frames_sent <= u64::MAX
            &&& t.frames_received <= u64::MAX
        } by {
            assert(groups@.contains_key(id));
        }
    }
    true
}

/// Whether the statistics of the trace fit in `u64`, so that
/// `ConnectionStats::from_qlog` may be called.
pub fn statistics_fit(qlog: &QlogData) -> (res: bool)
    ensures
        res == stats_fit(qlog.events@),
{
    let events = &qlog.events;
    let ghost total = stats_walk(events@, events@.len());
    let mut bytes_sent: u64 = 0;
    let mut bytes_received: u64 = 0;
    let mut groups: HashMap<u64, StreamStats> = HashMap::new();
    let mut i: usize = 0;
    proof {
        assert(groups@.dom() =~= stats_walk(events@, 0).streams.dom());
    }
    while i < events.len()
        invariant
            i <= events@.len(),
            events@ == qlog.events@,
            total == stats_walk(events@, events@.len()),
            bytes_sent == stats_walk(events@, i as nat).bytes_sent,
            bytes_received == stats_walk(events@, i as nat).bytes_received,
            groups@.dom() == stats_walk(events@, i as nat).streams.dom(),
            forall|id: u64| #[trigger] groups@.contains_key(id) ==> stats_match(
                groups@[id],
                stats_walk(events@, i as nat).streams[id],
            ),
        decreases events@.len() - i,
    {
        proof {
            lemma_stats_walk_grows(events@, (i + 1) as nat, events@.len());
            if tallies_fit(total.streams) {
                lemma_tallies_fit_within(stats_walk(events@, (i + 1) as nat).streams, total.streams);
            }
        }
        let ghost before = stats_walk(events@, i as nat);
        match &events[i].data {
            EventData::PacketSent(p) => {
                let b = match packet_size_checked(p) {
                    Some(b) => b,
                    None => return false,
                };
                bytes_sent = match bytes_sent.checked_add(b) {
                    Some(v) => v,
                    None => return false,
                };
                if let Some(fs) = &p.frames {
                    if !count_stream_frames_checked(&mut groups, fs, true, Ghost(before.streams)) {
                        return false;
                    }
                }
            },
            EventData::PacketReceived(p) => {
                let b = match packet_size_checked(p) {
                    Some(b) => b,
                    None => return false,
                };
                bytes_received = match bytes_received.checked_add(b) {
                    Some(v) => v,
                    None => return false,
                };
                if let Some(fs) = &p.frames {
                    if !count_stream_frames_checked(&mut groups, fs, false, Ghost(before.streams)) {
                        return false;
                    }
                }
            },
            _ => {},
        }
        i = i + 1;
    }
    proof {
        assert forall|id: u64| #[trigger] total.streams.contains_key(id) implies {
            let t = total.streams[id];
            &&& t.bytes_sent <= u64::MAX
            &&& t.bytes_received <= u64::MAX
            &&& t.frames_sent <= u64::MAX
            &&& t.frames_received <= u64::MAX
        } by {
            assert(groups@.contains_key(id));
        }
    }
    true
}

/// Connection statistics whose times are event indices.
pub struct ConnectionStats {
    pub packets_sent: u64,
    pub packets_received: u64,
    /// The number of distinct packets that the correlation counts as lost.
    pub packets_lost: u64,
    pub bytes_sent: u64,
    pub bytes_received: u64,
    pub stream_stats: HashMap<u64, StreamStats>,
    /// The first `ConnectionStarted` event.
    pub handshake_start: Option<usize>,
    /// The first connection state update that ends the handshake.
    pub handshake_end: Option<usize>,
}

impl ConnectionStats {
    /// Statistics of nothing.
    pub fn new() -> (res: Self)
        ensures
            res.is_empty(),
            res.stream_stats@ == Map::<u64, StreamStats>::empty(),
    {
        ConnectionStats {
            packets_sent: 0,
            packets_received: 0,
            packets_lost: 0,
            bytes_sent: 0,
            bytes_received: 0,
            stream_stats: HashMap::new(),
            handshake_start: None,
            handshake_end: None,
        }
    }

    /// Whether every count is zero and nothing is known.
    pub open spec fn is_empty(&self) -> bool {
        &&& self.packets_sent == 0
        &&& self.packets_received == 0
        &&& self.packets_lost == 0
        &&& self.bytes_sent == 0
        &&& self.bytes_received == 0
        &&& self.stream_stats@.dom().len() == 0
        &&& self.handshake_start is None
        &&& self.handshake_end is None
    }

    /// Whether `self` holds the counts of walk `w`.
    pub open spec fn holds(&self, w: StatsWalk) -> bool {
        &&& self.packets_sent == w.packets_sent
        &&& self.packets_received == w.packets_received
        &&& self.bytes_sent == w.bytes_sent
        &&& self.bytes_received == w.bytes_received
        &&& self.stream_stats@.dom() == w.streams.dom()
        &&& forall|id: u64| #[trigger] self.stream_stats@.contains_key(id) ==> stats_match(
            self.stream_stats@[id],
            w.streams[id],
        )
        &&& self.handshake_start == (match w.handshake_start {
            Some(i) => Some(i as usize),
            None => None::<usize>,
        })
        &&& self.handshake_end == (match w.handshake_end {
            Some(i) => Some(i as usize),
            None => None::<usize>,
        })
    }

    /// Counts the packets, bytes and stream traffic of a trace, and takes the
    /// number of lost packets from its correlation.
    pub fn from_qlog(qlog: &QlogData, correlation: &PacketCorrelation) -> (res: Self)
        requires
            stats_fit(qlog.events@),
        ensures
            qlog.events@.len() == 0 ==> res.is_empty(),
            qlog.events@.len() > 0 ==> res.holds(stats_walk(qlog.events@, qlog.events@.len()))
                && res.packets_lost == correlation.lost_packets@.dom().len(),
    {
        let mut stats = Self::new();
        let events = &qlog.events;
        if events.len() == 0 {
            return stats;
        }
        let ghost total = stats_walk(events@, events@.len());
        let mut i: usize = 0;
        while i < events.len()
            invariant
                i <= events@.len(),
                total == stats_walk(events@, events@.len()),
                walk_fits(total),
                stats.holds(stats_walk(events@, i as nat)),
                stats.packets_lost == 0,
            decreases events@.len() - i,
        {
            proof {
                lemma_stats_walk_grows(events@, (i + 1) as nat, events@.len());
                lemma_stats_walk_grows(events@, i as nat, (i + 1) as nat);
            }
            let ghost before = stats_walk(events@, i as nat);
            match &events[i].data {
                EventData::PacketSent(p) => {
                    let b = packet_size(p, Ghost(total.bytes_sent));
                    stats.packets_sent = stats.packets_sent + 1;
                    stats.bytes_sent = stats.bytes_sent + b;
                    if let Some(fs) = &p.frames {
                        count_stream_frames(&mut stats.stream_stats, fs, true, Ghost(before.streams), Ghost(total.streams));
                    }
                },
                EventData::PacketReceived(p) => {
                    let b = packet_size(p, Ghost(total.bytes_received));
                    stats.packets_received = stats.packets_received + 1;
                    stats.bytes_received = stats.bytes_received + b;
                    if let Some(fs) = &p.frames {
                        count_stream_frames(&mut stats.stream_stats, fs, false, Ghost(before.streams), Ghost(total.streams));
                    }
                },
                EventData::ConnectionStarted => {
                    if stats.handshake_start.is_none() {
                        stats.handshake_start = Some(i);
                    }
                },
                EventData::ConnectionStateUpdated { new_state } => {
                    if stats.handshake_end.is_none() {
                        let lower = chars_of(to_lowercase(new_state.as_str()).as_str());
                        let done = chars_of("handshake_done");
                        let connected = chars_of("connected");
                        proof {
                            reveal_strlit("handshake_done");
                            reveal_strlit("connected");
                        }
                        if vec_contains(&lower, &done) || vec_contains(&lower, &connected) {
                            stats.handshake_end = Some(i);
                        }
                    }
                },
                _ => {},
            }
            i = i + 1;
        }
        stats.packets_lost = correlation.loss_count() as u64;
        stats
    }

    /// The estimated wire size of a frame.
    pub fn estimate_frame_size(frame: &QuicFrame) -> (res: u64)
        requires
            frame_estimate(*frame) <= u64::MAX,
        ensures
            res == frame_estimate(*frame),
    {
        match frame {
            QuicFrame::Stream { raw_length, .. } => match raw_length {
                Some(l) => *l + 3,
                None => 3,
            },
            QuicFrame::Crypto { raw_length } => match raw_length {
                Some(l) => *l + 2,
                None => 2,
            },
            QuicFrame::Ack { .. } => 20,
            QuicFrame::Padding { .. } => 1,
            QuicFrame::Ping => 1,
            QuicFrame::ResetStream { .. } => 15,
            QuicFrame::StopSending { .. } => 10,
            QuicFrame::NewConnectionId => 30,
            QuicFrame::RetireConnectionId => 5,
            QuicFrame::PathChallenge => 9,
            QuicFrame::PathResponse => 9,
            QuicFrame::ConnectionClose => 20,
            QuicFrame::HandshakeDone => 1,
            QuicFrame::MaxData => 8,
            QuicFrame::MaxStreamData { .. } => 10,
            QuicFrame::MaxStreams => 8,
            QuicFrame::DataBlocked => 8,
            QuicFrame::StreamDataBlocked { .. } => 10,
            QuicFrame::StreamsBlocked => 8,
            QuicFrame::NewToken => 50,
            _ => 10,
        }
    }
}

/// The size counted for a packet, where it fits under `bound`.
fn packet_size(p: &PacketEvent, Ghost(bound): Ghost<nat>) -> (res: u64)
    requires
        packet_estimate(*p) <= bound,
        bound <= u64::MAX,
    ensures
        res == packet_estimate(*p),
{
    match p.raw_length {
        Some(l) => l,
        None => match &p.frames {
            Some(fs) => {
                let mut acc: u64 = 0;
                let mut m: usize = 0;
                while m < fs.len()
                    invariant
                        m <= fs@.len(),
                        frames_estimate(fs@, fs@.len()) + 20 <= bound,
                        bound <= u64::MAX,
                        acc == frames_estimate(fs@, m as nat),
                    decreases fs@.len() - m,
                {
                    proof {
                        lemma_frames_estimate_grows(fs@, (m + 1) as nat, fs@.len());
                    }
                    acc = acc + ConnectionStats::estimate_frame_size(&fs[m]);
                    m = m + 1;
                }
                acc + 20
            },
            None => DEFAULT_PACKET_SIZE,
        },
    }
}

/// Counts the STREAM frames of one packet into the per-stream statistics.
fn count_stream_frames(
    groups: &mut HashMap<u64, StreamStats>,
    fs: &Vec<QuicFrame>,
    sent: bool,
    Ghost(start): Ghost<Map<u64, StreamTally>>,
    Ghost(bound): Ghost<Map<u64, StreamTally>>,
)
    requires
        old(groups)@.dom() == start.dom(),
        forall|id: u64| #[trigger] old(groups)@.contains_key(id) ==> stats_match(old(groups)@[id], start[id]),
        tallies_within(stream_walk(start, fs@, fs@.len(), sent), bound),
        forall|id: u64| #[trigger] bound.contains_key(id) ==> {
            let t = bound[id];
            &&& t.bytes_sent <= u64::MAX
            &&& t.bytes_received <= u64::MAX
            &&& t.frames_sent <= u64::MAX
            &&& t.frames_received <= u64::MAX
        },
    ensures
        final(groups)@.dom() == stream_walk(start, fs@, fs@.len(), sent).dom(),
        forall|id: u64| #[trigger] final(groups)@.contains_key(id) ==> stats_match(
            final(groups)@[id],
            stream_walk(start, fs@, fs@.len(), sent)[id],
        ),
{
    let mut m: usize = 0;
    while m < fs.len()
        invariant
            m <= fs@.len(),
            tallies_within(stream_walk(start, fs@, fs@.len(), sent), bound),
            forall|id: u64| #[trigger] bound.contains_key(id) ==> {
                let t = bound[id];
                &&& t.bytes_sent <= u64::MAX
                &&& t.bytes_received <= u64::MAX
                &&& t.frames_sent <= u64::MAX
                &&& t.frames_received <= u64::MAX
            },
            groups@.dom() == stream_walk(start, fs@, m as nat, sent).dom(),
            forall|id: u64| #[trigger] groups@.contains_key(id) ==> stats_match(
                groups@[id],
                stream_walk(start, fs@, m as nat, sent)[id],
            ),
        decreases fs@.len() - m,
    {
        proof {
            lemma_stream_walk_grows(start, fs@, (m + 1) as nat, fs@.len(), sent);
            lemma_tallies_within_trans(
                stream_walk(start, fs@, (m + 1) as nat, sent),
                stream_walk(start, fs@, fs@.len(), sent),
                bound,
            );
        }
        let ghost cur = stream_walk(start, fs@, m as nat, sent);
        let ghost next = stream_walk(start, fs@, (m + 1) as nat, sent);
        if let QuicFrame::Stream { stream_id, raw_length, .. } = &fs[m] {
            let id = *stream_id;
            let len: u64 = match raw_length {
                Some(l) => *l,
                None => 0,
            };
            let old_stats: StreamStats = match groups.get(&id) {
                Some(s) => *s,
                None => StreamStats::default(),
            };
            assert(next.contains_key(id));
            let new_stats = if sent {
                StreamStats {
                    bytes_sent: old_stats.bytes_sent + len,
                    frames_sent: old_stats.frames_sent + 1,
                    ..old_stats
                }
            } else {
                StreamStats {
                    bytes_received: old_stats.bytes_received + len,
                    frames_received: old_stats.frames_received + 1,
                    ..old_stats
                }
            };
            groups.insert(id, new_stats);
            proof {
                assert(groups@.dom() =~= next.dom());
            }
        }
        m = m + 1;
    }
}

} // verus!
