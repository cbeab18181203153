//! The data of the multiplexing diagram: which stream carried data when.
//!
//! A segment is a STREAM frame, given by the index of the event that carried
//! it and its length. The caller places it in time by that event's timestamp.
use crate::model::{Event, EventData, QlogData, QuicFrame};
use std::collections::HashMap;
use vstd::prelude::*;

verus! {

broadcast use vstd::std_specs::hash::group_hash_axioms;

/// The length given to a segment whose frame records none.
pub const DEFAULT_SEGMENT_LENGTH: u64 = 1000;

/// The number of segments the diagram keeps unless told otherwise.
pub const DEFAULT_MAX_SEGMENTS: usize = 2000;

/// One stretch of stream data: the event that carried it and its length.
pub type Segment = (usize, u64);

/// Per stream, its segments in log order.
pub type StreamSegments = HashMap<u64, Vec<Segment>>;

/// What the diagram reads of a trace, in log order.
pub ghost enum StreamItem {
    /// A STREAM frame of stream `id`, carried by event `idx`, of length `len`.
    Segment { id: u64, idx: usize, len: u64 },
    /// A stream whose state changed.
    Declare { id: u64 },
}

/// The item that frame `f` of event `idx` contributes.
pub open spec fn frame_item(f: QuicFrame, idx: usize) -> Seq<StreamItem> {
    match f {
        QuicFrame::Stream { stream_id, raw_length, .. } => seq![
            StreamItem::Segment {
                id: stream_id,
                idx,
                len: match raw_length {
                    Some(l) => l,
                    None => DEFAULT_SEGMENT_LENGTH,
                },
            },
        ],
        _ => Seq::empty(),
    }
}

/// The items of the first `m` frames of event `idx`.
pub open spec fn frames_items(fs: Seq<QuicFrame>, m: nat, idx: usize) -> Seq<StreamItem>
    decreases m,
{
    if m == 0 {
        Seq::empty()
    } else {
        frames_items(fs, (m - 1) as nat, idx) + frame_item(fs[m - 1], idx)
    }
}

/// The items of event `e`, the `idx`-th of its trace.
pub open spec fn event_items(e: Event, idx: usize) -> Seq<StreamItem> {
    match e.data {
        EventData::PacketSent(p) => match p.frames {
            Some(fs) => frames_items(fs@, fs@.len(), idx),
            None => Seq::empty(),
        },
        EventData::PacketReceived(p) => match p.frames {
            Some(fs) => frames_items(fs@, fs@.len(), idx),
            None => Seq::empty(),
        },
        EventData::FramesProcessed { frames } => frames_items(frames@, frames@.len(), idx),
        EventData::StreamStateUpdated { stream_id } => seq![StreamItem::Declare { id: stream_id }],
        _ => Seq::empty(),
    }
}

/// The items of the first `n` events.
pub open spec fn stream_items(events: Seq<Event>, n: nat) -> Seq<StreamItem>
    decreases n,
{
    if n == 0 {
        Seq::empty()
    } else {
        stream_items(events, (n - 1) as nat) + event_items(events[n - 1], (n - 1) as usize)
    }
}

/// The diagram's data after a sequence of items: the segments kept per
/// stream, how many were kept, and how many there were.
pub ghost struct Multiplex {
    pub streams: Map<u64, Seq<Segment>>,
    pub kept: nat,
    pub total: nat,
}

/// Reads `items` in order, keeping segments while fewer than `max` are kept.
/// A stream whose state changed is listed, with no segment if it has none.
pub open spec fn multiplex(items: Seq<StreamItem>, max: nat) -> Multiplex
    decreases items.len(),
{
    if items.len() == 0 {
        Multiplex { streams: Map::empty(), kept: 0, total: 0 }
    } else {
        let w = multiplex(items.drop_last(), max);
        match items.last() {
            StreamItem::Segment { id, idx, len } => if w.kept < max {
                let prior = if w.streams.contains_key(id) {
                    w.streams[id]
                } else {
                    Seq::empty()
                };
                Multiplex { streams: w.streams.insert(id, prior.push((idx, len))), kept: w.kept + 1, total: w.total + 1 }
            } else {
                Multiplex { total: w.total + 1, ..w }
            },
            StreamItem::Declare { id } => if w.streams.contains_key(id) {
                w
            } else {
                Multiplex { streams: w.streams.insert(id, Seq::empty()), ..w }
            },
        }
    }
}

/// The diagram keeps at most `max` segments, never more than there are, and
/// every segment while there are no more than `max`.
pub proof fn segments_capped(items: Seq<StreamItem>, max: nat)
    ensures
        multiplex(items, max).kept <= max,
        multiplex(items, max).kept <= multiplex(items, max).total,
        multiplex(items, max).total <= max ==> multiplex(items, max).kept == multiplex(items, max).total,
    decreases items.len(),
{
    if items.len() > 0 {
        segments_capped(items.drop_last(), max);
    }
}

/// The number of segments among `items`.
pub open spec fn segment_count(items: Seq<StreamItem>) -> nat
    decreases items.len(),
{
    if items.len() == 0 {
        0
    } else {
        segment_count(items.drop_last()) + if items.last() is Segment {
            1nat
        } else {
            0nat
        }
    }
}

proof fn lemma_segment_count_add(a: Seq<StreamItem>, b: Seq<StreamItem>)
    ensures
        segment_count(a + b) == segment_count(a) + segment_count(b),
    decreases b.len(),
{
    if b.len() > 0 {
        assert((a + b).drop_last() =~= a + b.drop_last());
        lemma_segment_count_add(a, b.drop_last());
    } else {
        assert(a + b =~= a);
    }
}

proof fn lemma_total_counts_segments(items: Seq<StreamItem>, max: nat)
    ensures
        multiplex(items, max).total == segment_count(items),
    decreases items.len(),
{
    if items.len() > 0 {
        lemma_total_counts_segments(items.drop_last(), max);
    }
}

/// The multiplexing diagram's settings.
pub struct MultiplexingDiagram {
    pub max_segments: usize,
}

/// The diagram's data while it is being built.
struct Builder {
    streams: StreamSegments,
    kept: usize,
    total: usize,
}

impl Builder {
    spec fn is(&self, w: Multiplex) -> bool {
        &&& self.streams@.dom() == w.streams.dom()
        &&& forall|id: u64| #[trigger] self.streams@.contains_key(id) ==> self.streams@[id]@ == w.streams[id]
        &&& self.kept == w.kept
        &&& self.total == w.total
    }
}

proof fn lemma_multiplex_push(items: Seq<StreamItem>, x: StreamItem, max: nat)
    ensures
        multiplex(items.push(x), max) == ({
            let w = multiplex(items, max);
            match x {
                StreamItem::Segment { id, idx, len } => if w.kept < max {
                    let prior = if w.streams.contains_key(id) {
                        w.streams[id]
                    } else {
                        Seq::empty()
                    };
                    Multiplex { streams: w.streams.insert(id, prior.push((idx, len))), kept: w.kept + 1, total: w.total + 1 }
                } else {
                    Multiplex { total: w.total + 1, ..w }
                },
                StreamItem::Declare { id } => if w.streams.contains_key(id) {
                    w
                } else {
                    Multiplex { streams: w.streams.insert(id, Seq::empty()), ..w }
                },
            }
        }),
{
    assert(items.push(x).drop_last() =~= items);
}

proof fn lemma_multiplex_total_grows(items: Seq<StreamItem>, n: nat, max: nat)
    requires
        n <= items.len(),
    ensures
        multiplex(items.take(n as int), max).total <= multiplex(items, max).total,
        multiplex(items, max).kept <= multiplex(items, max).total,
    decreases items.len(),
{
    if items.len() > 0 {
        let front = items.drop_last();
        if n < items.len() {
            assert(front.take(n as int) =~= items.take(n as int));
            lemma_multiplex_total_grows(front, n, max);
        } else {
            assert(items.take(n as int) =~= items);
            lemma_multiplex_total_grows(front, 0, max);
        }
    }
}

proof fn lemma_stream_items_prefix(events: Seq<Event>, j: nat, k: nat)
    requires
        j <= k,
    ensures
        stream_items(events, j).len() <= stream_items(events, k).len(),
        stream_items(events, k).take(stream_items(events, j).len() as int) == stream_items(events, j),
    decreases k,
{
    if j < k {
        lemma_stream_items_prefix(events, j, (k - 1) as nat);
        let a = stream_items(events, j);
        let b = stream_items(events, (k - 1) as nat);
        let c = stream_items(events, k);
        assert(c.take(b.len() as int) =~= b);
        assert(c.take(a.len() as int) =~= b.take(a.len() as int));
    } else {
        assert(stream_items(events, k).take(stream_items(events, j).len() as int) =~= stream_items(events, j));
    }
}

proof fn lemma_frames_items_prefix(fs: Seq<QuicFrame>, j: nat, k: nat, idx: usize)
    requires
        j <= k,
    ensures
        frames_items(fs, j, idx).len() <= frames_items(fs, k, idx).len(),
        frames_items(fs, k, idx).take(frames_items(fs, j, idx).len() as int) == frames_items(fs, j, idx),
    decreases k,
{
    if j < k {
        lemma_frames_items_prefix(fs, j, (k - 1) as nat, idx);
        let a = frames_items(fs, j, idx);
        let b = frames_items(fs, (k - 1) as nat, idx);
        let c = frames_items(fs, k, idx);
        assert(c.take(b.len() as int) =~= b);
        assert(c.take(a.len() as int) =~= b.take(a.len() as int));
    } else {
        assert(frames_items(fs, k, idx).take(frames_items(fs, j, idx).len() as int) =~= frames_items(fs, j, idx));
    }
}

/// Reads one item into the builder.
fn add_item(b: &mut Builder, x: StreamItemExec, max: usize, Ghost(items): Ghost<Seq<StreamItem>>, Ghost(bound): Ghost<nat>)
    requires
        old(b).is(multiplex(items, max as nat)),
        multiplex(items.push(x.spec_item()), max as nat).total <= bound,
        bound <= usize::MAX,
    ensures
        final(b).is(multiplex(items.push(x.spec_item()), max as nat)),
{
    proof {
        lemma_multiplex_push(items, x.spec_item(), max as nat);
        lemma_multiplex_total_grows(items.push(x.spec_item()), 0, max as nat);
    }
    match x {
        StreamItemExec::Segment { id, idx, len } => {
            if b.kept < max {
                let mut v: Vec<Segment> = match b.streams.remove(&id) {
                    Some(existing) => existing,
                    None => Vec::new(),
                };
                v.push((idx, len));
                b.streams.insert(id, v);
                b.kept = b.kept + 1;
                proof {
                    assert(b.streams@.dom() =~= multiplex(items.push(x.spec_item()), max as nat).streams.dom());
                }
            }
            b.total = b.total + 1;
        },
        StreamItemExec::Declare { id } => {
            if !b.streams.contains_key(&id) {
                b.streams.insert(id, Vec::new());
                proof {
                    assert(b.streams@.dom() =~= multiplex(items.push(x.spec_item()), max as nat).streams.dom());
                }
            }
        },
    }
}

/// An item, as the builder reads it.
enum StreamItemExec {
    Segment { id: u64, idx: usize, len: u64 },
    Declare { id: u64 },
}

impl StreamItemExec {
    spec fn spec_item(self) -> StreamItem {
        match self {
            StreamItemExec::Segment { id, idx, len } => StreamItem::Segment { id, idx, len },
            StreamItemExec::Declare { id } => StreamItem::Declare { id },
        }
    }
}

/// Reads the STREAM frames of event `idx` into the builder.
fn add_frames(
    b: &mut Builder,
    fs: &Vec<QuicFrame>,
    idx: usize,
    max: usize,
    Ghost(items): Ghost<Seq<StreamItem>>,
    Ghost(bound): Ghost<nat>,
)
    requires
        old(b).is(multiplex(items, max as nat)),
        multiplex(items + frames_items(fs@, fs@.len(), idx), max as nat).total <= bound,
        bound <= usize::MAX,
    ensures
        final(b).is(multiplex(items + frames_items(fs@, fs@.len(), idx), max as nat)),
{
    let mut m: usize = 0;
    proof {
        assert(items + frames_items(fs@, 0, idx) =~= items);
    }
    while m < fs.len()
        invariant
            m <= fs@.len(),
            multiplex(items + frames_items(fs@, fs@.len(), idx), max as nat).total <= bound,
            bound <= usize::MAX,
            b.is(multiplex(items + frames_items(fs@, m as nat, idx), max as nat)),
        decreases fs@.len() - m,
    {
        let ghost before = items + frames_items(fs@, m as nat, idx);
        let ghost all = items + frames_items(fs@, fs@.len(), idx);
        proof {
            lemma_frames_items_prefix(fs@, (m + 1) as nat, fs@.len(), idx);
            let after = items + frames_items(fs@, (m + 1) as nat, idx);
            assert(all.take(after.len() as int) =~= after);
            lemma_multiplex_total_grows(all, after.len(), max as nat);
        }
        if let QuicFrame::Stream { stream_id, raw_length, .. } = &fs[m] {
            let len: u64 = match raw_length {
                Some(l) => *l,
                None => DEFAULT_SEGMENT_LENGTH,
            };
            let x = StreamItemExec::Segment { id: *stream_id, idx, len };
            proof {
                assert(before.push(x.spec_item()) =~= items + frames_items(fs@, (m + 1) as nat, idx));
            }
            add_item(b, x, max, Ghost(before), Ghost(bound));
        } else {
            proof {
                assert(before =~= items + frames_items(fs@, (m + 1) as nat, idx));
            }
        }
        m = m + 1;
    }
}

impl MultiplexingDiagram {
    /// A diagram that keeps up to 2000 segments.
    pub fn new() -> (res: Self)
        ensures
            res.max_segments == DEFAULT_MAX_SEGMENTS,
    {
        MultiplexingDiagram { max_segments: DEFAULT_MAX_SEGMENTS }
    }

    /// Whether the number of STREAM frames of the trace fits in `usize`, so
    /// that `extract_stream_data` may be called.
    pub fn stream_data_fits(&self, qlog: &QlogData) -> (res: bool)
        ensures
            res == (multiplex(stream_items(qlog.events@, qlog.events@.len()), self.max_segments as nat).total <= usize::MAX),
            res == (trace_stream_frames(qlog.events@, qlog.events@.len()) <= usize::MAX),
    {
        let events = &qlog.events;
        let ghost all = stream_items(events@, events@.len());
        let mut count: usize = 0;
        let mut i: usize = 0;
        proof {
            lemma_total_counts_segments(all, self.max_segments as nat);
            segments_are_the_stream_frames(events@, self.max_segments as nat);
        }
        while i < events.len()
            invariant
                i <= events@.len(),
                events@ == qlog.events@,
                all == stream_items(events@, events@.len()),
                multiplex(all, self.max_segments as nat).total == segment_count(all),
                multiplex(all, self.max_segments as nat).total == trace_stream_frames(events@, events@.len()),
                count == segment_count(stream_items(events@, i as nat)),
            decreases events@.len() - i,
        {
            let ghost before = stream_items(events@, i as nat);
            let ghost after = stream_items(events@, (i + 1) as nat);
            let no_frames: Vec<QuicFrame> = Vec::new();
            let fs: &Vec<QuicFrame> = match &events[i].data {
                EventData::PacketSent(p) => match &p.frames {
                    Some(fs) => fs,
                    None => &no_frames,
                },
                EventData::PacketReceived(p) => match &p.frames {
                    Some(fs) => fs,
                    None => &no_frames,
                },
                EventData::FramesProcessed { frames } => frames,
                _ => &no_frames,
            };
            let mut here: usize = 0;
            let mut m: usize = 0;
            while m < fs.len()
                invariant
                    m <= fs@.len(),
                    here <= m,
                    here == segment_count(frames_items(fs@, m as nat, i)),
                decreases fs@.len() - m,
            {
                proof {
                    lemma_segment_count_add(frames_items(fs@, m as nat, i), frame_item(fs@[m as int], i));
                    reveal_with_fuel(segment_count, 2);
                }
                if let QuicFrame::Stream { .. } = &fs[m] {
                    here = here + 1;
                }
                m = m + 1;
            }
            proof {
                lemma_segment_count_add(before, event_items(events@[i as int], i));
                reveal_with_fuel(segment_count, 2);
                assert(after == before + event_items(events@[i as int], i));
                assert(segment_count(event_items(events@[i as int], i)) == here);
                lemma_stream_items_prefix(events@, (i + 1) as nat, events@.len());
                lemma_multiplex_total_grows(all, after.len(), self.max_segments as nat);
                lemma_total_counts_segments(after, self.max_segments as nat);
            }
            match count.checked_add(here) {
                Some(c) => count = c,
                None => return false,
            }
            i = i + 1;
        }
        proof {
            assert(stream_items(events@, i as nat) == all);
        }
        true
    }

    /// The segments of each stream, and the number of STREAM frames in the
    /// trace. Segments are kept in log order until `max_segments` are kept;
    /// a stream whose state changed is listed even with no segment.
    pub fn extract_stream_data(&self, qlog: &QlogData) -> (res: (StreamSegments, usize))
        requires
            multiplex(stream_items(qlog.events@, qlog.events@.len()), self.max_segments as nat).total <= usize::MAX,
        ensures
            ({
                let w = multiplex(stream_items(qlog.events@, qlog.events@.len()), self.max_segments as nat);
                &&& res.0@.dom() == w.streams.dom()
                &&& forall|id: u64| #[trigger] res.0@.contains_key(id) ==> res.0@[id]@ == w.streams[id]
                &&& res.1 == w.total
            }),
            res.1 == trace_stream_frames(qlog.events@, qlog.events@.len()),
    {
        let events = &qlog.events;
        let max = self.max_segments;
        let ghost all = stream_items(events@, events@.len());
        let ghost bound = multiplex(all, max as nat).total;
        let mut b = Builder { streams: HashMap::new(), kept: 0, total: 0 };
        let mut i: usize = 0;
        proof {
            assert(b.streams@.dom() =~= multiplex(stream_items(events@, 0), max as nat).streams.dom());
        }
        while i < events.len()
            invariant
                i <= events@.len(),
                max == self.max_segments,
                all == stream_items(events@, events@.len()),
                bound == multiplex(all, max as nat).total,
                bound <= usize::MAX,
                b.is(multiplex(stream_items(events@, i as nat), max as nat)),
            decreases events@.len() - i,
        {
            let ghost before = stream_items(events@, i as nat);
            let ghost after = stream_items(events@, (i + 1) as nat);
            proof {
                lemma_stream_items_prefix(events@, (i + 1) as nat, events@.len());
                lemma_multiplex_total_grows(all, after.len(), max as nat);
            }
            match &events[i].data {
                EventData::PacketSent(p) => {
                    if let Some(fs) = &p.frames {
                        add_frames(&mut b, fs, i, max, Ghost(before), Ghost(bound));
                    } else {
                        proof {
                            assert(after =~= before);
                        }
                    }
                },
                EventData::PacketReceived(p) => {
                    if let Some(fs) = &p.frames {
                        add_frames(&mut b, fs, i, max, Ghost(before), Ghost(bound));
                    } else {
                        proof {
                            assert(after =~= before);
                        }
                    }
                },
                EventData::FramesProcessed { frames } => {
                    add_frames(&mut b, frames, i, max, Ghost(before), Ghost(bound));
                },
                EventData::StreamStateUpdated { stream_id } => {
                    let x = StreamItemExec::Declare { id: *stream_id };
                    proof {
                        assert(before.push(x.spec_item()) =~= after);
                    }
                    add_item(&mut b, x, max, Ghost(before), Ghost(bound));
                },
                _ => {
                    proof {
                        assert(after =~= before);
                    }
                },
            }
            i = i + 1;
        }
        proof {
            segments_are_the_stream_frames(events@, max as nat);
        }
        (b.streams, b.total)
    }
}

/// The frames that event `e` carries: those of a sent or received packet,
/// or those that a frames-processed event lists.
pub open spec fn carried_frames(e: Event) -> Seq<QuicFrame> {
    match e.data {
        EventData::PacketSent(p) => match p.frames {
            Some(fs) => fs@,
            None => Seq::empty(),
        },
        EventData::PacketReceived(p) => match p.frames {
            Some(fs) => fs@,
            None => Seq::empty(),
        },
        EventData::FramesProcessed { frames } => frames@,
        _ => Seq::empty(),
    }
}

/// The number of STREAM frames among `fs`.
pub open spec fn stream_frame_count(fs: Seq<QuicFrame>) -> nat
    decreases fs.len(),
{
    if fs.len() == 0 {
        0
    } else {
        stream_frame_count(fs.drop_last()) + if fs.last() is Stream {
            1nat
        } else {
            0nat
        }
    }
}

/// The number of STREAM frames that the first `n` events carry.
pub open spec fn trace_stream_frames(events: Seq<Event>, n: nat) -> nat
    decreases n,
{
    if n == 0 {
        0
    } else {
        trace_stream_frames(events, (n - 1) as nat) + stream_frame_count(carried_frames(events[n - 1]))
    }
}

proof fn lemma_frames_segments(fs: Seq<QuicFrame>, m: nat, idx: usize)
    requires
        m <= fs.len(),
    ensures
        segment_count(frames_items(fs, m, idx)) == stream_frame_count(fs.take(m as int)),
    decreases m,
{
    if m > 0 {
        lemma_frames_segments(fs, (m - 1) as nat, idx);
        lemma_segment_count_add(frames_items(fs, (m - 1) as nat, idx), frame_item(fs[m - 1], idx));
        reveal_with_fuel(segment_count, 2);
        assert(fs.take(m as int).drop_last() =~= fs.take(m - 1));
    } else {
        assert(frames_items(fs, 0, idx) =~= Seq::<StreamItem>::empty());
    }
}

proof fn lemma_items_segments(events: Seq<Event>, n: nat)
    requires
        n <= events.len(),
    ensures
        segment_count(stream_items(events, n)) == trace_stream_frames(events, n),
    decreases n,
{
    if n > 0 {
        lemma_items_segments(events, (n - 1) as nat);
        let e = events[n - 1];
        let idx = (n - 1) as usize;
        lemma_segment_count_add(stream_items(events, (n - 1) as nat), event_items(e, idx));
        let fs = carried_frames(e);
        lemma_frames_segments(fs, fs.len(), idx);
        assert(fs.take(fs.len() as int) =~= fs);
        reveal_with_fuel(segment_count, 2);
        if let EventData::StreamStateUpdated { .. } = e.data {
            assert(segment_count(event_items(e, idx)) == 0);
        }
    }
}

/// Every STREAM frame of a sent or received packet or of a frames-processed
/// event is one segment of its stream: the diagram counts exactly the STREAM
/// frames that the trace carries, and keeps each of them while fewer than
/// `max` are kept.
pub proof fn segments_are_the_stream_frames(events: Seq<Event>, max: nat)
    ensures
        multiplex(stream_items(events, events.len()), max).total == trace_stream_frames(events, events.len()),
        trace_stream_frames(events, events.len()) <= max ==> multiplex(stream_items(events, events.len()), max).kept
            == trace_stream_frames(events, events.len()),
{
    lemma_items_segments(events, events.len());
    lemma_total_counts_segments(stream_items(events, events.len()), max);
    segments_capped(stream_items(events, events.len()), max);
}

/// Whether `e` carries a STREAM frame of stream `id` whose recorded length
/// (or the default segment length, where it records none) is `len`.
pub open spec fn carries_stream_frame(e: Event, id: u64, len: u64) -> bool {
    exists|q: int| {
        &&& 0 <= q < carried_frames(e).len()
        &&& #[trigger] carried_frames(e)[q] is Stream
        &&& carried_frames(e)[q]->Stream_stream_id == id
        &&& len == match carried_frames(e)[q]->Stream_raw_length {
            Some(l) => l,
            None => DEFAULT_SEGMENT_LENGTH,
        }
    }
}

proof fn lemma_frame_items_origin(fs: Seq<QuicFrame>, m: nat, idx: usize)
    requires
        m <= fs.len(),
    ensures
        forall|j: int| 0 <= j < frames_items(fs, m, idx).len() ==> {
            let it = #[trigger] frames_items(fs, m, idx)[j];
            &&& it is Segment
            &&& it->Segment_idx == idx
            &&& exists|q: int| {
                &&& 0 <= q < m
                &&& #[trigger] fs[q] is Stream
                &&& fs[q]->Stream_stream_id == it->Segment_id
                &&& it->Segment_len == match fs[q]->Stream_raw_length {
                    Some(l) => l,
                    None => DEFAULT_SEGMENT_LENGTH,
                }
            }
        },
    decreases m,
{
    if m > 0 {
        lemma_frame_items_origin(fs, (m - 1) as nat, idx);
        let a = frames_items(fs, (m - 1) as nat, idx);
        let b = frame_item(fs[m - 1], idx);
        let c = frames_items(fs, m, idx);
        assert forall|j: int| 0 <= j < c.len() implies {
            let it = #[trigger] c[j];
            &&& it is Segment
            &&& it->Segment_idx == idx
            &&& exists|q: int| {
                &&& 0 <= q < m
                &&& #[trigger] fs[q] is Stream
                &&& fs[q]->Stream_stream_id == it->Segment_id
                &&& it->Segment_len == match fs[q]->Stream_raw_length {
                    Some(l) => l,
                    None => DEFAULT_SEGMENT_LENGTH,
                }
            }
        } by {
            if j < a.len() {
                assert(c[j] == a[j]);
            } else {
                assert(c[j] == b[j - a.len()]);
                assert(fs[m - 1] is Stream);
            }
        }
    }
}

proof fn lemma_items_origin(events: Seq<Event>, n: nat)
    requires
        n <= events.len(),
        n <= usize::MAX + 1,
    ensures
        forall|j: int| 0 <= j < stream_items(events, n).len() && (#[trigger] stream_items(events, n)[j]) is Segment ==> {
            let it = stream_items(events, n)[j];
            &&& it->Segment_idx < n
            &&& carries_stream_frame(events[it->Segment_idx as int], it->Segment_id, it->Segment_len)
        },
    decreases n,
{
    if n > 0 {
        lemma_items_origin(events, (n - 1) as nat);
        let e = events[n - 1];
        let idx = (n - 1) as usize;
        let a = stream_items(events, (n - 1) as nat);
        let b = event_items(e, idx);
        let c = stream_items(events, n);
        let fs = carried_frames(e);
        lemma_frame_items_origin(fs, fs.len(), idx);
        assert forall|j: int| 0 <= j < c.len() && (#[trigger] c[j]) is Segment implies {
            let it = c[j];
            &&& it->Segment_idx < n
            &&& carries_stream_frame(events[it->Segment_idx as int], it->Segment_id, it->Segment_len)
        } by {
            if j < a.len() {
                assert(c[j] == a[j]);
            } else {
                let it = c[j];
                assert(it == b[j - a.len()]);
                assert(b == frames_items(fs, fs.len(), idx));
                let q = choose|q: int| {
                    &&& 0 <= q < fs.len()
                    &&& #[trigger] fs[q] is Stream
                    &&& fs[q]->Stream_stream_id == it->Segment_id
                    &&& it->Segment_len == match fs[q]->Stream_raw_length {
                        Some(l) => l,
                        None => DEFAULT_SEGMENT_LENGTH,
                    }
                };
                assert(carried_frames(events[it->Segment_idx as int])[q] is Stream);
            }
        }
    }
}

proof fn lemma_kept_from_items(items: Seq<StreamItem>, max: nat)
    ensures
        forall|id: u64, k: int| #![trigger multiplex(items, max).streams[id][k]]
            multiplex(items, max).streams.contains_key(id) && 0 <= k < multiplex(items, max).streams[id].len() ==> exists|j: int|
                0 <= j < items.len() && #[trigger] items[j] == (StreamItem::Segment {
                    id,
                    idx: multiplex(items, max).streams[id][k].0,
                    len: multiplex(items, max).streams[id][k].1,
                }),
    decreases items.len(),
{
    if items.len() > 0 {
        let front = items.drop_last();
        lemma_kept_from_items(front, max);
        let w = multiplex(front, max);
        let v = multiplex(items, max);
        assert forall|id: u64, k: int| #![trigger v.streams[id][k]]
            v.streams.contains_key(id) && 0 <= k < v.streams[id].len() implies exists|j: int|
                0 <= j < items.len() && #[trigger] items[j] == (StreamItem::Segment {
                    id,
                    idx: v.streams[id][k].0,
                    len: v.streams[id][k].1,
                }) by {
            if w.streams.contains_key(id) && k < w.streams[id].len() && v.streams[id][k] == w.streams[id][k] {
                let j = choose|j: int|
                    0 <= j < front.len() && #[trigger] front[j] == (StreamItem::Segment {
                        id,
                        idx: w.streams[id][k].0,
                        len: w.streams[id][k].1,
                    });
                assert(items[j] == front[j]);
            } else {
                assert(items[items.len() - 1] == items.last());
            }
        }
    }
}

/// Every segment that the diagram keeps for a stream is a STREAM frame of
/// that stream, carried by the event whose index the segment gives, with the
/// frame's recorded length (or the default length where it records none).
pub proof fn segments_come_from_stream_frames(events: Seq<Event>, max: nat)
    requires
        events.len() <= usize::MAX,
    ensures
        forall|id: u64, k: int| #![trigger multiplex(stream_items(events, events.len()), max).streams[id][k]]
            multiplex(stream_items(events, events.len()), max).streams.contains_key(id) && 0 <= k < multiplex(
                stream_items(events, events.len()),
                max,
            ).streams[id].len() ==> {
                let seg = multiplex(stream_items(events, events.len()), max).streams[id][k];
                &&& seg.0 < events.len()
                &&& carries_stream_frame(events[seg.0 as int], id, seg.1)
            },
{
    let items = stream_items(events, events.len());
    lemma_items_origin(events, events.len());
    lemma_kept_from_items(items, max);
    let w = multiplex(items, max);
    assert forall|id: u64, k: int| #![trigger w.streams[id][k]]
        w.streams.contains_key(id) && 0 <= k < w.streams[id].len() implies {
            let seg = w.streams[id][k];
            &&& seg.0 < events.len()
            &&& carries_stream_frame(events[seg.0 as int], id, seg.1)
        } by {
        let seg = w.streams[id][k];
        let j = choose|j: int|
            0 <= j < items.len() && #[trigger] items[j] == (StreamItem::Segment { id, idx: seg.0, len: seg.1 });
        assert(items[j] is Segment);
    }
}

} // verus!
