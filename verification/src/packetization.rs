//! Lays the packets and frames of each direction of a trace out on a byte
//! axis, as a packetization diagram shows them.
use crate::frames::{frame_size, frame_stream_id, frame_type_of, get_frame_size, get_frame_stream_id, FrameType, FrameTypeView};
use crate::model::{Event, EventData, PacketEvent, PacketType, QlogData, QuicFrame, DEFAULT_PACKET_SIZE};
use std::collections::HashMap;
use vstd::prelude::*;

verus! {

broadcast use vstd::std_specs::hash::group_hash_axioms;

/// A packet's place on the byte axis.
#[derive(Debug, Clone, Copy, PartialEq, Eq, Structural)]
pub struct PacketRange {
    pub start_byte: u64,
    pub end_byte: u64,
    pub packet_number: u64,
    pub packet_type: PacketType,
    pub size: u64,
    pub event_idx: usize,
}

/// A frame's place on the byte axis.
#[derive(Debug)]
pub struct FrameRange {
    pub start_byte: u64,
    pub end_byte: u64,
    pub frame_type: FrameType,
    pub size: u64,
    pub stream_id: Option<u64>,
    pub event_idx: usize,
}

/// A frame's place on the byte axis, as a view.
pub ghost struct FrameRangeView {
    pub start_byte: u64,
    pub end_byte: u64,
    pub frame_type: FrameTypeView,
    pub size: u64,
    pub stream_id: Option<u64>,
    pub event_idx: usize,
}

impl View for FrameRange {
    type V = FrameRangeView;

    open spec fn view(&self) -> FrameRangeView {
        FrameRangeView {
            start_byte: self.start_byte,
            end_byte: self.end_byte,
            frame_type: self.frame_type@,
            size: self.size,
            stream_id: self.stream_id,
            event_idx: self.event_idx,
        }
    }
}

/// A stretch of one stream's data: first byte, end byte and event.
pub type StreamRange = (u64, u64, usize);

/// The layout of one direction of a trace.
pub struct ByteStreamData {
    pub packets: Vec<PacketRange>,
    pub frames: Vec<FrameRange>,
    pub stream_ranges: HashMap<u64, Vec<StreamRange>>,
    pub total_bytes: u64,
    pub packet_count: usize,
}

/// The packet that an event sends (`sent`) or receives (otherwise).
pub open spec fn directed_packet(e: Event, sent: bool) -> Option<PacketEvent> {
    match e.data {
        EventData::PacketSent(p) => if sent {
            Some(p)
        } else {
            None
        },
        EventData::PacketReceived(p) => if sent {
            None
        } else {
            Some(p)
        },
        _ => None,
    }
}

/// The size of a packet: its raw length, or the default where the log has none.
pub open spec fn packet_bytes(p: PacketEvent) -> u64 {
    match p.raw_length {
        Some(l) => l,
        None => DEFAULT_PACKET_SIZE,
    }
}

/// The size given to a frame of a packet without its own length: the
/// packet's size shared evenly among its frames.
pub open spec fn even_share(size: u64, count: nat) -> nat {
    if count > 0 {
        size as nat / count
    } else {
        size as nat
    }
}

/// Where the frames of one packet go.
pub ghost struct FrameWalk {
    pub frames: Seq<FrameRangeView>,
    pub streams: Seq<(u64, StreamRange)>,
    pub offset: nat,
    pub fits: bool,
}

/// Lays out the first `m` frames of a packet spanning `start` to `end`.
/// Each frame takes its raw length (or `share`), clipped at the packet's end,
/// and begins where the previous one ended. `fits` tells whether every sum
/// stays within `u64`.
pub open spec fn frame_walk(frames: Seq<QuicFrame>, m: nat, start: nat, end: nat, share: nat, idx: usize) -> FrameWalk
    decreases m,
{
    if m == 0 {
        FrameWalk { frames: Seq::empty(), streams: Seq::empty(), offset: start, fits: true }
    } else {
        let w = frame_walk(frames, (m - 1) as nat, start, end, share, idx);
        let f = frames[m - 1];
        let actual: nat = match frame_size(f) {
            Some(s) => s as nat,
            None => share,
        };
        let reach = w.offset + actual;
        let frame_end = if reach < end {
            reach
        } else {
            end
        };
        let stream_fits = match f {
            QuicFrame::Stream { stream_id, length, .. } => w.offset + length <= u64::MAX,
            _ => true,
        };
        FrameWalk {
            frames: w.frames.push(
                FrameRangeView {
                    start_byte: w.offset as u64,
                    end_byte: frame_end as u64,
                    frame_type: frame_type_of(f),
                    size: actual as u64,
                    stream_id: frame_stream_id(f),
                    event_idx: idx,
                },
            ),
            streams: match f {
                QuicFrame::Stream { stream_id, length, .. } => w.streams.push(
                    (stream_id, (w.offset as u64, (w.offset + length) as u64, idx)),
                ),
                _ => w.streams,
            },
            offset: frame_end,
            fits: w.fits && reach <= u64::MAX && stream_fits,
        }
    }
}

/// The layout of one direction, over the first `n` events.
pub ghost struct DirectionWalk {
    pub packets: Seq<PacketRange>,
    pub frames: Seq<FrameRangeView>,
    pub streams: Seq<(u64, StreamRange)>,
    pub offset: nat,
    pub fits: bool,
}

/// Lays out the packets of one direction among the first `n` events, back to
/// back from byte 0, each with its frames.
pub open spec fn direction_walk(events: Seq<Event>, n: nat, sent: bool) -> DirectionWalk
    decreases n,
{
    if n == 0 {
        DirectionWalk { packets: Seq::empty(), frames: Seq::empty(), streams: Seq::empty(), offset: 0, fits: true }
    } else {
        let d = direction_walk(events, (n - 1) as nat, sent);
        let idx = (n - 1) as usize;
        match directed_packet(events[n - 1], sent) {
            Some(p) => {
                let size = packet_bytes(p);
                let start = d.offset;
                let end: nat = start + size as nat;
                let range = PacketRange {
                    start_byte: start as u64,
                    end_byte: end as u64,
                    packet_number: match p.header.packet_number {
                        Some(x) => x,
                        None => 0,
                    },
                    packet_type: p.header.packet_type,
                    size,
                    event_idx: idx,
                };
                match p.frames {
                    Some(fs) => {
                        let w = frame_walk(fs@, fs@.len(), start, end, even_share(size, fs@.len()), idx);
                        DirectionWalk {
                            packets: d.packets.push(range),
                            frames: d.frames + w.frames,
                            streams: d.streams + w.streams,
                            offset: end,
                            fits: d.fits && end <= u64::MAX && w.fits,
                        }
                    },
                    None => DirectionWalk {
                        packets: d.packets.push(range),
                        frames: d.frames,
                        streams: d.streams,
                        offset: end,
                        fits: d.fits && end <= u64::MAX,
                    },
                }
            },
            None => d,
        }
    }
}

/// The stream ranges grouped by stream, each group in order.
pub open spec fn group_streams(s: Seq<(u64, StreamRange)>) -> Map<u64, Seq<StreamRange>>
    decreases s.len(),
{
    if s.len() == 0 {
        Map::empty()
    } else {
        let m = group_streams(s.drop_last());
        let (id, r) = s.last();
        let prior = if m.contains_key(id) {
            m[id]
        } else {
            Seq::empty()
        };
        m.insert(id, prior.push(r))
    }
}

/// Whether the layout of both directions stays within `u64`.
pub open spec fn layout_fits(events: Seq<Event>) -> bool {
    direction_walk(events, events.len(), true).fits && direction_walk(events, events.len(), false).fits
}

impl ByteStreamData {
    /// An empty layout.
    pub fn new() -> (res: Self)
        ensures
            res.packets@.len() == 0,
            res.frames@.len() == 0,
            res.stream_ranges@ == Map::<u64, Vec<StreamRange>>::empty(),
            res.total_bytes == 0,
            res.packet_count == 0,
    {
        ByteStreamData {
            packets: Vec::new(),
            frames: Vec::new(),
            stream_ranges: HashMap::new(),
            total_bytes: 0,
            packet_count: 0,
        }
    }

    /// Whether `self` is the layout of one direction of `events`.
    pub open spec fn lays_out(&self, events: Seq<Event>, sent: bool) -> bool {
        let d = direction_walk(events, events.len(), sent);
        &&& self.packets@ == d.packets
        &&& self.frames@.map_values(|f: FrameRange| f@) == d.frames
        &&& self.stream_ranges@.dom() == group_streams(d.streams).dom()
        &&& forall|id: u64| #[trigger] self.stream_ranges@.contains_key(id) ==> self.stream_ranges@[id]@
            == group_streams(d.streams)[id]
        &&& self.total_bytes == d.offset
        &&& self.packet_count == d.packets.len()
    }
}

/// Appends stream range `r` to the group of stream `id`.
fn add_stream_range(
    groups: &mut HashMap<u64, Vec<StreamRange>>,
    id: u64,
    r: StreamRange,
    Ghost(s): Ghost<Seq<(u64, StreamRange)>>,
)
    requires
        old(groups)@.dom() == group_streams(s).dom(),
        forall|k: u64| #[trigger] old(groups)@.contains_key(k) ==> old(groups)@[k]@ == group_streams(s)[k],
    ensures
        final(groups)@.dom() == group_streams(s.push((id, r))).dom(),
        forall|k: u64| #[trigger] final(groups)@.contains_key(k) ==> final(groups)@[k]@ == group_streams(
            s.push((id, r)),
        )[k],
{
    proof {
        assert(s.push((id, r)).drop_last() =~= s);
    }
    let mut v: Vec<StreamRange> = match groups.remove(&id) {
        Some(existing) => existing,
        None => Vec::new(),
    };
    v.push(r);
    groups.insert(id, v);
    proof {
        assert(groups@.dom() =~= group_streams(s.push((id, r))).dom());
    }
}

/// The layout of one direction of a trace.
fn lay_out_direction(events: &Vec<Event>, sent: bool) -> (res: ByteStreamData)
    requires
        direction_walk(events@, events@.len(), sent).fits,
    ensures
        res.lays_out(events@, sent),
{
    let mut data = ByteStreamData::new();
    let mut offset: u64 = 0;
    let mut i: usize = 0;
    proof {
        assert(data.frames@.map_values(|f: FrameRange| f@) =~= Seq::<FrameRangeView>::empty());
    }
    while i < events.len()
        invariant
            i <= events@.len(),
            direction_walk(events@, events@.len(), sent).fits,
            direction_walk(events@, i as nat, sent).fits,
            data.packets@ == direction_walk(events@, i as nat, sent).packets,
            data.frames@.map_values(|f: FrameRange| f@) == direction_walk(events@, i as nat, sent).frames,
            data.stream_ranges@.dom() == group_streams(direction_walk(events@, i as nat, sent).streams).dom(),
            forall|id: u64| #[trigger] data.stream_ranges@.contains_key(id) ==> data.stream_ranges@[id]@
                == group_streams(direction_walk(events@, i as nat, sent).streams)[id],
            offset == direction_walk(events@, i as nat, sent).offset,
            data.total_bytes == offset,
            data.packet_count == data.packets@.len(),
            data.packets@.len() <= i,
        decreases events@.len() - i,
    {
        proof {
            lemma_walk_fits_prefix(events@, (i + 1) as nat, events@.len(), sent);
        }
        let p_opt: Option<&PacketEvent> = match &events[i].data {
            EventData::PacketSent(p) => if sent {
                Some(p)
            } else {
                None
            },
            EventData::PacketReceived(p) => if sent {
                None
            } else {
                Some(p)
            },
            _ => None,
        };
        match p_opt {
            Some(p) => {
                let size: u64 = match p.raw_length {
                    Some(l) => l,
                    None => DEFAULT_PACKET_SIZE,
                };
                let start = offset;
                let end = offset + size;
                let packet_number = match p.header.packet_number {
                    Some(x) => x,
                    None => 0,
                };
                data.packets.push(
                    PacketRange {
                        start_byte: start,
                        end_byte: end,
                        packet_number,
                        packet_type: p.header.packet_type,
                        size,
                        event_idx: i,
                    },
                );
                data.packet_count = data.packet_count + 1;
                match &p.frames {
                    Some(fs) => {
                        let count = fs.len();
                        let share: u64 = if count > 0 {
                            size / (count as u64)
                        } else {
                            size
                        };
                        let ghost frames_before = data.frames@.map_values(|f: FrameRange| f@);
                        let ghost packets_now = data.packets@;
                        let ghost count_now = data.packet_count;
                        let ghost streams_before = direction_walk(events@, i as nat, sent).streams;
                        let mut frame_offset: u64 = start;
                        let mut m: usize = 0;
                        proof {
                            assert(frames_before + frame_walk(fs@, 0, start as nat, end as nat, share as nat, i).frames =~= frames_before);
                            assert(streams_before + frame_walk(fs@, 0, start as nat, end as nat, share as nat, i).streams =~= streams_before);
                            lemma_frame_walk_fits_prefix(fs@, 0, fs@.len(), start as nat, end as nat, share as nat, i);
                        }
                        while m < fs.len()
                            invariant
                                m <= fs@.len(),
                                count == fs@.len(),
                                start <= end,
                                share as nat == even_share(size, fs@.len()),
                                frame_walk(fs@, fs@.len(), start as nat, end as nat, share as nat, i).fits,
                                frame_offset as nat == frame_walk(fs@, m as nat, start as nat, end as nat, share as nat, i).offset,
                                frame_offset <= end,
                                data.packets@ == packets_now,
                                data.packet_count == count_now,
                                data.frames@.map_values(|f: FrameRange| f@) == frames_before + frame_walk(
                                    fs@,
                                    m as nat,
                                    start as nat,
                                    end as nat,
                                    share as nat,
                                    i,
                                ).frames,
                                data.stream_ranges@.dom() == group_streams(streams_before + frame_walk(
                                    fs@,
                                    m as nat,
                                    start as nat,
                                    end as nat,
                                    share as nat,
                                    i,
                                ).streams).dom(),
                                forall|id: u64| #[trigger] data.stream_ranges@.contains_key(id) ==> data.stream_ranges@[id]@
                                    == group_streams(streams_before + frame_walk(
                                    fs@,
                                    m as nat,
                                    start as nat,
                                    end as nat,
                                    share as nat,
                                    i,
                                ).streams)[id],
                            decreases fs@.len() - m,
                        {
                            let ghost w = frame_walk(fs@, m as nat, start as nat, end as nat, share as nat, i);
                            proof {
                                lemma_frame_walk_fits_prefix(fs@, (m + 1) as nat, fs@.len(), start as nat, end as nat, share as nat, i);
                                lemma_frame_walk_offset(fs@, m as nat, start as nat, end as nat, share as nat, i);
                            }
                            let frame = &fs[m];
                            let actual: u64 = match get_frame_size(frame) {
                                Some(s) => s,
                                None => share,
                            };
                            let reach = frame_offset + actual;
                            let frame_end = if reach < end {
                                reach
                            } else {
                                end
                            };
                            let ft = FrameType::from_quic_frame(frame);
                            let ghost fb = data.frames@.map_values(|f: FrameRange| f@);
                            data.frames.push(
                                FrameRange {
                                    start_byte: frame_offset,
                                    end_byte: frame_end,
                                    frame_type: ft,
                                    size: actual,
                                    stream_id: get_frame_stream_id(frame),
                                    event_idx: i,
                                },
                            );
                            proof {
                                assert(data.frames@.map_values(|f: FrameRange| f@) =~= fb.push(data.frames@.last()@));
                            }
                            match frame {
                                QuicFrame::Stream { stream_id, length, .. } => {
                                    add_stream_range(
                                        &mut data.stream_ranges,
                                        *stream_id,
                                        (frame_offset, frame_offset + *length, i),
                                        Ghost(streams_before + w.streams),
                                    );
                                    proof {
                                        assert((streams_before + w.streams).push((*stream_id, (frame_offset, (frame_offset + *length) as u64, i)))
                                            =~= streams_before + frame_walk(fs@, (m + 1) as nat, start as nat, end as nat, share as nat, i).streams);
                                    }
                                },
                                _ => {
                                    proof {
                                        assert(streams_before + w.streams =~= streams_before + frame_walk(fs@, (m + 1) as nat, start as nat, end as nat, share as nat, i).streams);
                                    }
                                },
                            }
                            proof {
                                assert(frames_before + w.frames.push(data.frames@.last()@) =~= frames_before + frame_walk(
                                    fs@,
                                    (m + 1) as nat,
                                    start as nat,
                                    end as nat,
                                    share as nat,
                                    i,
                                ).frames);
                            }
                            frame_offset = frame_end;
                            m = m + 1;
                        }
                    },
                    None => {},
                }
                offset = end;
                data.total_bytes = end;
            },
            None => {},
        }
        i = i + 1;
    }
    data
}

proof fn lemma_walk_fits_prefix(events: Seq<Event>, n: nat, total: nat, sent: bool)
    requires
        n <= total,
        direction_walk(events, total, sent).fits,
    ensures
        direction_walk(events, n, sent).fits,
    decreases total - n,
{
    if n < total {
        lemma_walk_fits_prefix(events, n + 1, total, sent);
    }
}

proof fn lemma_frame_walk_fits_prefix(frames: Seq<QuicFrame>, m: nat, total: nat, start: nat, end: nat, share: nat, idx: usize)
    requires
        m <= total,
        frame_walk(frames, total, start, end, share, idx).fits,
    ensures
        frame_walk(frames, m, start, end, share, idx).fits,
    decreases total - m,
{
    if m < total {
        lemma_frame_walk_fits_prefix(frames, m + 1, total, start, end, share, idx);
    }
}

proof fn lemma_frame_walk_offset(frames: Seq<QuicFrame>, m: nat, start: nat, end: nat, share: nat, idx: usize)
    requires
        start <= end,
    ensures
        start <= frame_walk(frames, m, start, end, share, idx).offset <= end,
        frame_walk(frames, m, start, end, share, idx).frames.len() == m,
    decreases m,
{
    if m > 0 {
        lemma_frame_walk_offset(frames, (m - 1) as nat, start, end, share, idx);
    }
}

/// Whether the packets lie back to back from byte 0 up to `total`, each
/// spanning its own size.
pub open spec fn packets_back_to_back(ps: Seq<PacketRange>, total: nat) -> bool {
    &&& forall|k: int| 0 <= k < ps.len() ==> #[trigger] ps[k].end_byte == ps[k].start_byte + ps[k].size
    &&& forall|k: int| 1 <= k < ps.len() ==> #[trigger] ps[k].start_byte == ps[k - 1].end_byte
    &&& ps.len() > 0 ==> ps[0].start_byte == 0 && ps[ps.len() - 1].end_byte == total
    &&& ps.len() == 0 ==> total == 0
}

/// Whether frame `f` belongs to packet `p` and lies inside it.
pub open spec fn frame_within(p: PacketRange, f: FrameRangeView) -> bool {
    &&& p.event_idx == f.event_idx
    &&& p.start_byte <= f.start_byte <= f.end_byte <= p.end_byte
}

/// Whether frame `f` lies inside one of the packets.
pub open spec fn in_some_packet(ps: Seq<PacketRange>, f: FrameRangeView) -> bool {
    exists|k: int| 0 <= k < ps.len() && #[trigger] frame_within(ps[k], f)
}

/// Whether each frame lies inside one of the packets.
pub open spec fn frames_in_packets(ps: Seq<PacketRange>, fs: Seq<FrameRangeView>) -> bool {
    forall|j: int| 0 <= j < fs.len() ==> #[trigger] in_some_packet(ps, fs[j])
}

/// Whether each frame ends no later than any later frame starts.
pub open spec fn frames_in_order(fs: Seq<FrameRangeView>) -> bool {
    forall|a: int, b: int| 0 <= a < b < fs.len() ==> #[trigger] fs[a].end_byte <= #[trigger] fs[b].start_byte
}

proof fn lemma_frame_walk_shape(frames: Seq<QuicFrame>, m: nat, start: nat, end: nat, share: nat, idx: usize)
    requires
        start <= end <= u64::MAX,
    ensures
        ({
            let w = frame_walk(frames, m, start, end, share, idx);
            &&& w.frames.len() == m
            &&& start <= w.offset <= end
            &&& forall|j: int| 0 <= j < m ==> start <= (#[trigger] w.frames[j]).start_byte <= w.frames[j].end_byte <= w.offset
                && w.frames[j].event_idx == idx
            &&& frames_in_order(w.frames)
        }),
    decreases m,
{
    if m > 0 {
        lemma_frame_walk_shape(frames, (m - 1) as nat, start, end, share, idx);
        let w = frame_walk(frames, (m - 1) as nat, start, end, share, idx);
        let w1 = frame_walk(frames, m, start, end, share, idx);
        assert(w1.frames == w.frames.push(w1.frames.last()));
        assert forall|j: int| 0 <= j < m implies start <= (#[trigger] w1.frames[j]).start_byte <= w1.frames[j].end_byte <= w1.offset
            && w1.frames[j].event_idx == idx by {
            if j < m - 1 {
                assert(w1.frames[j] == w.frames[j]);
            }
        }
        assert forall|a: int, b: int| 0 <= a < b < w1.frames.len() implies #[trigger] w1.frames[a].end_byte <= #[trigger] w1.frames[b].start_byte by {
            assert(w1.frames[a] == w.frames[a]);
            if b < m - 1 {
                assert(w1.frames[b] == w.frames[b]);
            }
        }
    }
}

proof fn lemma_direction_shape(events: Seq<Event>, n: nat, sent: bool)
    requires
        direction_walk(events, n, sent).fits,
    ensures
        ({
            let d = direction_walk(events, n, sent);
            &&& d.offset <= u64::MAX
            &&& packets_back_to_back(d.packets, d.offset)
            &&& frames_in_order(d.frames)
            &&& forall|j: int| 0 <= j < d.frames.len() ==> (#[trigger] d.frames[j]).end_byte <= d.offset
            &&& frames_in_packets(d.packets, d.frames)
        }),
    decreases n,
{
    if n > 0 {
        let d = direction_walk(events, (n - 1) as nat, sent);
        let d1 = direction_walk(events, n, sent);
        lemma_direction_shape(events, (n - 1) as nat, sent);
        match directed_packet(events[n - 1], sent) {
            Some(p) => {
                let range = d1.packets.last();
                assert(d1.packets == d.packets.push(range));
                let start = d.offset;
                let end: nat = start + packet_bytes(p) as nat;
                assert(range.start_byte == start && range.end_byte == end);
                match p.frames {
                    Some(fs) => {
                        let w = frame_walk(fs@, fs@.len(), start, end, even_share(packet_bytes(p), fs@.len()), (n - 1) as usize);
                        lemma_frame_walk_shape(fs@, fs@.len(), start, end, even_share(packet_bytes(p), fs@.len()), (n - 1) as usize);
                        assert(d1.frames == d.frames + w.frames);
                        assert forall|j: int| 0 <= j < d1.frames.len() implies (#[trigger] d1.frames[j]).end_byte <= d1.offset by {
                            if j < d.frames.len() {
                                assert(d1.frames[j] == d.frames[j]);
                            } else {
                                assert(d1.frames[j] == w.frames[j - d.frames.len()]);
                            }
                        }
                        assert forall|a: int, b: int| 0 <= a < b < d1.frames.len() implies #[trigger] d1.frames[a].end_byte
                            <= #[trigger] d1.frames[b].start_byte by {
                            if b < d.frames.len() {
                                assert(d1.frames[a] == d.frames[a]);
                                assert(d1.frames[b] == d.frames[b]);
                            } else if a < d.frames.len() {
                                assert(d1.frames[a] == d.frames[a]);
                                assert(d1.frames[b] == w.frames[b - d.frames.len()]);
                            } else {
                                assert(d1.frames[a] == w.frames[a - d.frames.len()]);
                                assert(d1.frames[b] == w.frames[b - d.frames.len()]);
                            }
                        }
                        assert forall|j: int| 0 <= j < d1.frames.len() implies #[trigger] in_some_packet(d1.packets, d1.frames[j]) by {
                            if j < d.frames.len() {
                                assert(in_some_packet(d.packets, d.frames[j]));
                                let k = choose|k: int| 0 <= k < d.packets.len() && #[trigger] frame_within(d.packets[k], d.frames[j]);
                                assert(d1.frames[j] == d.frames[j]);
                                assert(d1.packets[k] == d.packets[k]);
                                assert(frame_within(d1.packets[k], d1.frames[j]));
                            } else {
                                let k = d.packets.len() as int;
                                assert(d1.frames[j] == w.frames[j - d.frames.len()]);
                                assert(frame_within(d1.packets[k], d1.frames[j]));
                            }
                        }
                    },
                    None => {
                        assert(d1.frames == d.frames);
                        assert forall|j: int| 0 <= j < d1.frames.len() implies #[trigger] in_some_packet(d1.packets, d1.frames[j]) by {
                            assert(d1.frames[j] == d.frames[j]);
                            assert(in_some_packet(d.packets, d.frames[j]));
                                let k = choose|k: int| 0 <= k < d.packets.len() && #[trigger] frame_within(d.packets[k], d.frames[j]);
                            assert(d1.packets[k] == d.packets[k]);
                            assert(frame_within(d1.packets[k], d1.frames[j]));
                        }
                    },
                }
                assert forall|k: int| 1 <= k < d1.packets.len() implies #[trigger] d1.packets[k].start_byte == d1.packets[k - 1].end_byte by {
                    if k < d.packets.len() {
                        assert(d1.packets[k] == d.packets[k]);
                        assert(d1.packets[k - 1] == d.packets[k - 1]);
                    } else {
                        assert(d1.packets[k - 1] == d.packets[k - 1]);
                    }
                }
                assert forall|k: int| 0 <= k < d1.packets.len() implies #[trigger] d1.packets[k].end_byte == d1.packets[k].start_byte
                    + d1.packets[k].size by {
                    if k < d.packets.len() {
                        assert(d1.packets[k] == d.packets[k]);
                    }
                }
                if d.packets.len() > 0 {
                    assert(d1.packets[0] == d.packets[0]);
                }
            },
            None => {},
        }
    }
}

/// The packets of one direction lie back to back from byte 0 to the total,
/// each spanning its size; the frames follow one another in order, each inside
/// the packet that carried it, and none reaches past the total.
pub proof fn layout_is_contiguous(data: &ByteStreamData, events: Seq<Event>, sent: bool)
    requires
        data.lays_out(events, sent),
        direction_walk(events, events.len(), sent).fits,
    ensures
        packets_back_to_back(data.packets@, data.total_bytes as nat),
        frames_in_order(data.frames@.map_values(|f: FrameRange| f@)),
        frames_in_packets(data.packets@, data.frames@.map_values(|f: FrameRange| f@)),
        forall|j: int| 0 <= j < data.frames@.len() ==> (#[trigger] data.frames@[j]).end_byte <= data.total_bytes,
{
    lemma_direction_shape(events, events.len(), sent);
    let d = direction_walk(events, events.len(), sent);
    assert forall|j: int| 0 <= j < data.frames@.len() implies (#[trigger] data.frames@[j]).end_byte <= data.total_bytes by {
        assert(data.frames@.map_values(|f: FrameRange| f@)[j] == d.frames[j]);
    }
}

/// Whether the layout of one direction stays within `u64`.
fn direction_fits(events: &Vec<Event>, sent: bool) -> (res: bool)
    ensures
        res == direction_walk(events@, events@.len(), sent).fits,
{
    let mut offset: u64 = 0;
    let mut i: usize = 0;
    while i < events.len()
        invariant
            i <= events@.len(),
            direction_walk(events@, i as nat, sent).fits,
            offset == direction_walk(events@, i as nat, sent).offset,
        decreases events@.len() - i,
    {
        let ghost next = direction_walk(events@, (i + 1) as nat, sent);
        proof {
            if direction_walk(events@, events@.len(), sent).fits {
                lemma_walk_fits_prefix(events@, (i + 1) as nat, events@.len(), sent);
            }
        }
        let p_opt: Option<&PacketEvent> = match &events[i].data {
            EventData::PacketSent(p) => if sent {
                Some(p)
            } else {
                None
            },
            EventData::PacketReceived(p) => if sent {
                None
            } else {
                Some(p)
            },
            _ => None,
        };
        if let Some(p) = p_opt {
            let size: u64 = match p.raw_length {
                Some(l) => l,
                None => DEFAULT_PACKET_SIZE,
            };
            let end = match offset.checked_add(size) {
                Some(e) => e,
                None => return false,
            };
            if let Some(fs) = &p.frames {
                let count = fs.len();
                let share: u64 = if count > 0 {
                    size / (count as u64)
                } else {
                    size
                };
                let start = offset;
                let mut frame_offset: u64 = start;
                let mut m: usize = 0;
                proof {
                    assert(directed_packet(events@[i as int], sent) == Some(*p));
                    assert(direction_walk(events@, events@.len(), sent).fits ==> frame_walk(fs@, fs@.len(), start as nat, end as nat, share as nat, i).fits);
                }
                while m < fs.len()
                    invariant
                        m <= fs@.len(),
                        direction_walk(events@, events@.len(), sent).fits ==> frame_walk(fs@, fs@.len(), start as nat, end as nat, share as nat, i).fits,
                        count == fs@.len(),
                        start <= end,
                        share as nat == even_share(size, fs@.len()),
                        frame_walk(fs@, m as nat, start as nat, end as nat, share as nat, i).fits,
                        frame_offset as nat == frame_walk(fs@, m as nat, start as nat, end as nat, share as nat, i).offset,
                        frame_offset <= end,
                    decreases fs@.len() - m,
                {
                    proof {
                        lemma_frame_walk_offset(fs@, m as nat, start as nat, end as nat, share as nat, i);
                        if frame_walk(fs@, fs@.len(), start as nat, end as nat, share as nat, i).fits {
                            lemma_frame_walk_fits_prefix(fs@, (m + 1) as nat, fs@.len(), start as nat, end as nat, share as nat, i);
                        }
                    }
                    let frame = &fs[m];
                    let actual: u64 = match get_frame_size(frame) {
                        Some(s) => s,
                        None => share,
                    };
                    let reach = match frame_offset.checked_add(actual) {
                        Some(r) => r,
                        None => return false,
                    };
                    if let QuicFrame::Stream { length, .. } = frame {
                        if frame_offset.checked_add(*length).is_none() {
                            return false;
                        }
                    }
                    frame_offset = if reach < end {
                        reach
                    } else {
                        end
                    };
                    m = m + 1;
                }
            }
            offset = end;
        }
        i = i + 1;
    }
    true
}

/// Whether the layout of both directions stays within `u64`, so that
/// `extract_byte_stream_data` may be called.
pub fn byte_layout_fits(qlog: &QlogData) -> (res: bool)
    ensures
        res == layout_fits(qlog.events@),
{
    direction_fits(&qlog.events, true) && direction_fits(&qlog.events, false)
}

/// Lays out the sent and the received packets of a trace, each direction on
/// its own byte axis.
pub fn extract_byte_stream_data(qlog: &QlogData) -> (res: (ByteStreamData, ByteStreamData))
    requires
        layout_fits(qlog.events@),
    ensures
        res.0.lays_out(qlog.events@, true),
        res.1.lays_out(qlog.events@, false),
{
    let sent = lay_out_direction(&qlog.events, true);
    let received = lay_out_direction(&qlog.events, false);
    (sent, received)
}

/// The first packet that ends at or after byte `start`, found by binary
/// search over packets whose ends never decrease; the number of packets if
/// none does.
pub fn first_visible_packet(packets: &Vec<PacketRange>, start: u64) -> (res: usize)
    requires
        forall|a: int, b: int| 0 <= a < b < packets@.len() ==> (#[trigger] packets@[a]).end_byte <= (#[trigger] packets@[b]).end_byte,
    ensures
        res <= packets@.len(),
        forall|k: int| 0 <= k < res ==> (#[trigger] packets@[k]).end_byte < start,
        forall|k: int| res <= k < packets@.len() ==> (#[trigger] packets@[k]).end_byte >= start,
{
    let mut lo: usize = 0;
    let mut hi: usize = packets.len();
    while lo < hi
        invariant
            lo <= hi <= packets@.len(),
            forall|a: int, b: int| 0 <= a < b < packets@.len() ==> (#[trigger] packets@[a]).end_byte <= (#[trigger] packets@[b]).end_byte,
            forall|k: int| 0 <= k < lo ==> (#[trigger] packets@[k]).end_byte < start,
            forall|k: int| hi <= k < packets@.len() ==> (#[trigger] packets@[k]).end_byte >= start,
        decreases hi - lo,
    {
        let mid = lo + (hi - lo) / 2;
        if packets[mid].end_byte < start {
            lo = mid + 1;
        } else {
            hi = mid;
        }
    }
    lo
}

/// A view whose data is computed from a trace and kept until told that the
/// trace changed.
pub trait CachingVisualization {
    /// Drops the kept data, so that it is computed anew.
    fn invalidate_cache(&mut self);
}

/// The byte-axis layouts of a trace, kept between frames.
pub struct PacketizationCache {
    pub layouts: Option<(ByteStreamData, ByteStreamData)>,
}

impl PacketizationCache {
    /// A cache holding nothing.
    pub fn new() -> (res: Self)
        ensures
            res.layouts is None,
    {
        PacketizationCache { layouts: None }
    }

    /// Computes the layouts of `qlog` unless they are kept.
    pub fn fill(&mut self, qlog: &QlogData)
        requires
            layout_fits(qlog.events@),
        ensures
            final(self).layouts is Some,
            old(self).layouts is None ==> final(self).layouts->Some_0.0.lays_out(qlog.events@, true)
                && final(self).layouts->Some_0.1.lays_out(qlog.events@, false),
            old(self).layouts is Some ==> final(self).layouts == old(self).layouts,
    {
        if self.layouts.is_none() {
            self.layouts = Some(extract_byte_stream_data(qlog));
        }
    }
}

impl CachingVisualization for PacketizationCache {
    fn invalidate_cache(&mut self)
        ensures
            final(self).layouts is None,
    {
        self.layouts = None;
    }
}

} // verus!
