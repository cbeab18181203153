//! The event list: what each event is filed under, which events a set of
//! filters lets through, the filter choices that a trace offers, and moving
//! the selection through the list.
use crate::frames::{frame_stream_id, full_packet_type, full_packet_type_of, get_frame_stream_id, packet_type_name, packet_type_name_of};
use crate::model::{Event, EventData, PacketType, QlogData, QuicFrame};
use crate::records::event_name_of;
use crate::text::{chars_of, contains, owned, str_is, to_lowercase, unicode_lower, vec_contains};
use vstd::prelude::*;

verus! {

/// The values that the filters of a trace can take.
pub struct EventListFilterOptions<'a> {
    pub available_stream_ids: &'a [u64],
    pub available_packet_types: &'a [String],
    pub available_path_ids: &'a [u64],
}

/// The filters of the event list.
pub struct EventListFilters {
    /// Text that the event's name must contain, ignoring case.
    pub text: String,
    pub stream_id: Option<u64>,
    pub packet_type: Option<String>,
    pub path_id: Option<u64>,
    pub show_packets: bool,
    pub show_metrics: bool,
    pub show_timers: bool,
    pub show_connection: bool,
    pub show_recovery: bool,
    pub show_streams: bool,
}

impl Default for EventListFilters {
    /// No text, no id or type chosen, every category shown.
    fn default() -> (res: Self)
        ensures
            res.text@ == Seq::<char>::empty(),
            res.stream_id is None,
            res.packet_type is None,
            res.path_id is None,
            res.show_packets && res.show_metrics && res.show_timers,
            res.show_connection && res.show_recovery && res.show_streams,
    {
        EventListFilters {
            text: String::new(),
            stream_id: None,
            packet_type: None,
            path_id: None,
            show_packets: true,
            show_metrics: true,
            show_timers: true,
            show_connection: true,
            show_recovery: true,
            show_streams: true,
        }
    }
}

impl EventListFilters {
    /// Drops the text and the chosen stream, packet type and path; the
    /// category switches stay as they are.
    pub fn clear(&mut self)
        ensures
            final(self).text@ == Seq::<char>::empty(),
            final(self).stream_id is None,
            final(self).packet_type is None,
            final(self).path_id is None,
            final(self).show_packets == old(self).show_packets,
            final(self).show_metrics == old(self).show_metrics,
            final(self).show_timers == old(self).show_timers,
            final(self).show_connection == old(self).show_connection,
            final(self).show_recovery == old(self).show_recovery,
            final(self).show_streams == old(self).show_streams,
    {
        self.text = String::new();
        self.stream_id = None;
        self.packet_type = None;
        self.path_id = None;
    }
}

/// The category under which an event is listed.
pub open spec fn category_of(e: Event) -> Seq<char> {
    match e.data {
        EventData::PacketSent(_) | EventData::PacketReceived(_) | EventData::PacketLost { .. }
        | EventData::PacketsAcked { .. } => "packet"@,
        EventData::MetricsUpdated(_) | EventData::CongestionStateUpdated { .. } => "metrics"@,
        EventData::TimerUpdated { .. } => "timer"@,
        EventData::ConnectionStarted | EventData::ConnectionStateUpdated { .. } | EventData::ConnectionClosed
        | EventData::TupleAssigned { .. } => "connection"@,
        EventData::RecoveryParametersSet | EventData::ParametersRestored | EventData::ParametersSet
        | EventData::EcnStateUpdated { .. } => "recovery"@,
        EventData::StreamStateUpdated { .. } | EventData::FramesProcessed { .. } => "stream"@,
        _ => "other"@,
    }
}

/// The stream id of the first STREAM frame among `fs`.
pub open spec fn first_stream_frame(fs: Seq<QuicFrame>) -> Option<u64>
    decreases fs.len(),
{
    if fs.len() == 0 {
        None
    } else {
        match fs[0] {
            QuicFrame::Stream { stream_id, .. } => Some(stream_id),
            _ => first_stream_frame(fs.drop_first()),
        }
    }
}

/// The stream an event is about.
pub open spec fn stream_id_of(e: Event) -> Option<u64> {
    match e.data {
        EventData::StreamStateUpdated { stream_id } => Some(stream_id),
        EventData::FramesProcessed { frames } => first_stream_frame(frames@),
        _ => None,
    }
}

/// The path of a packet event, as its header gives it.
pub open spec fn path_id_of(e: Event) -> Option<u64> {
    match e.data {
        EventData::PacketSent(p) => p.header.path_id,
        EventData::PacketReceived(p) => p.header.path_id,
        EventData::PacketLost { header } => match header {
            Some(h) => h.path_id,
            None => None,
        },
        _ => None,
    }
}

/// The full name of the packet type of a sent or received packet.
pub open spec fn packet_type_of(e: Event) -> Option<Seq<char>> {
    match e.data {
        EventData::PacketSent(p) => Some(full_packet_type_of(packet_type_name_of(p.header.packet_type))),
        EventData::PacketReceived(p) => Some(full_packet_type_of(packet_type_name_of(p.header.packet_type))),
        _ => None,
    }
}

/// The category under which an event is listed.
pub fn get_event_category(event: &Event) -> (res: &'static str)
    ensures
        res@ == category_of(*event),
        event.data is MetricsUpdated || event.data is CongestionStateUpdated ==> res@ == "metrics"@,
{
    proof {
        reveal_strlit("packet");
        reveal_strlit("metrics");
    }
    match &event.data {
        EventData::PacketSent(_) | EventData::PacketReceived(_) | EventData::PacketLost { .. }
        | EventData::PacketsAcked { .. } => "packet",
        EventData::MetricsUpdated(_) | EventData::CongestionStateUpdated { .. } => "metrics",
        EventData::TimerUpdated { .. } => "timer",
        EventData::ConnectionStarted | EventData::ConnectionStateUpdated { .. } | EventData::ConnectionClosed
        | EventData::TupleAssigned { .. } => "connection",
        EventData::RecoveryParametersSet | EventData::ParametersRestored | EventData::ParametersSet
        | EventData::EcnStateUpdated { .. } => "recovery",
        EventData::StreamStateUpdated { .. } | EventData::FramesProcessed { .. } => "stream",
        _ => "other",
    }
}

/// The stream an event is about: that of a stream state update, or of the
/// first STREAM frame that a frames-processed event lists.
pub fn get_event_stream_id(event: &Event) -> (res: Option<u64>)
    ensures
        res == stream_id_of(*event),
{
    match &event.data {
        EventData::StreamStateUpdated { stream_id } => Some(*stream_id),
        EventData::FramesProcessed { frames } => {
            let mut k: usize = 0;
            proof {
                assert(frames@.skip(0) =~= frames@);
            }
            while k < frames.len()
                invariant
                    k <= frames@.len(),
                    first_stream_frame(frames@.skip(k as int)) == first_stream_frame(frames@),
                    stream_id_of(*event) == first_stream_frame(frames@),
                decreases frames@.len() - k,
            {
                proof {
                    assert(frames@.skip(k as int).drop_first() =~= frames@.skip(k + 1));
                    assert(frames@.skip(k as int)[0] == frames@[k as int]);
                }
                if let QuicFrame::Stream { stream_id, .. } = &frames[k] {
                    return Some(*stream_id);
                }
                k = k + 1;
            }
            None
        },
        _ => None,
    }
}

/// The path of a packet event.
pub fn get_event_path_id(event: &Event) -> (res: Option<u64>)
    ensures
        res == path_id_of(*event),
{
    match &event.data {
        EventData::PacketSent(p) => p.header.path_id,
        EventData::PacketReceived(p) => p.header.path_id,
        EventData::PacketLost { header } => match header {
            Some(h) => h.path_id,
            None => None,
        },
        _ => None,
    }
}

/// The full packet type name of a sent or received packet.
pub fn get_event_packet_type(event: &Event) -> (res: Option<String>)
    ensures
        match packet_type_of(*event) {
            Some(t) => res is Some && res->Some_0@ == t,
            None => res is None,
        },
{
    match &event.data {
        EventData::PacketSent(p) => Some(full_packet_type(packet_type_name(p.header.packet_type))),
        EventData::PacketReceived(p) => Some(full_packet_type(packet_type_name(p.header.packet_type))),
        _ => None,
    }
}

/// Whether the category switches let category `c` through; a category
/// without a switch always passes.
pub open spec fn category_shown(f: &EventListFilters, c: Seq<char>) -> bool {
    if c == "packet"@ {
        f.show_packets
    } else if c == "metrics"@ {
        f.show_metrics
    } else if c == "timer"@ {
        f.show_timers
    } else if c == "connection"@ {
        f.show_connection
    } else if c == "recovery"@ {
        f.show_recovery
    } else if c == "stream"@ {
        f.show_streams
    } else {
        true
    }
}

/// Whether the filters let event `e` through.
pub open spec fn passes(f: &EventListFilters, e: Event) -> bool {
    let text = unicode_lower(f.text@);
    &&& text.len() > 0 ==> contains(unicode_lower(event_name_of(e.class)), text)
    &&& category_shown(f, category_of(e))
    &&& f.stream_id is Some ==> stream_id_of(e) == f.stream_id
    &&& f.packet_type is Some ==> packet_type_of(e) == Some(f.packet_type->Some_0@)
    &&& f.path_id is Some ==> path_id_of(e) == f.path_id
}

/// The indices of the first `n` events that the filters let through, in order.
pub open spec fn passing_indices(f: &EventListFilters, events: Seq<Event>, n: nat) -> Seq<usize>
    decreases n,
{
    if n == 0 {
        Seq::empty()
    } else {
        let r = passing_indices(f, events, (n - 1) as nat);
        if passes(f, events[n - 1]) {
            r.push((n - 1) as usize)
        } else {
            r
        }
    }
}

fn category_allowed(f: &EventListFilters, c: &str) -> (res: bool)
    ensures
        res == category_shown(f, c@),
{
    proof {
        reveal_strlit("packet");
        reveal_strlit("metrics");
        reveal_strlit("timer");
        reveal_strlit("connection");
        reveal_strlit("recovery");
        reveal_strlit("stream");
    }
    if str_is(c, "packet") {
        f.show_packets
    } else if str_is(c, "metrics") {
        f.show_metrics
    } else if str_is(c, "timer") {
        f.show_timers
    } else if str_is(c, "connection") {
        f.show_connection
    } else if str_is(c, "recovery") {
        f.show_recovery
    } else if str_is(c, "stream") {
        f.show_streams
    } else {
        true
    }
}

/// Whether the filters let `event` through; `text_lower` is the filter text
/// in lower case.
fn event_passes(data: &QlogData, event: &Event, f: &EventListFilters, text_lower: &Vec<char>) -> (res: bool)
    requires
        text_lower@ == unicode_lower(f.text@),
    ensures
        res == passes(f, *event),
{
    if text_lower.len() > 0 {
        let name = data.get_event_name(event);
        let name_lower = chars_of(to_lowercase(name.as_str()).as_str());
        if !vec_contains(&name_lower, text_lower) {
            return false;
        }
    }
    if !category_allowed(f, get_event_category(event)) {
        return false;
    }
    if let Some(stream_id) = f.stream_id {
        if get_event_stream_id(event) != Some(stream_id) {
            return false;
        }
    }
    if let Some(pkt_type) = &f.packet_type {
        match get_event_packet_type(event) {
            Some(t) => {
                if !str_is(t.as_str(), pkt_type.as_str()) {
                    return false;
                }
            },
            None => {
                return false;
            },
        }
    }
    if let Some(path_id) = f.path_id {
        if get_event_path_id(event) != Some(path_id) {
            return false;
        }
    }
    true
}

/// The indices of the events that the filters let through, in log order.
pub fn filter_events(data: &QlogData, filters: &EventListFilters) -> (res: Vec<usize>)
    ensures
        res@ == passing_indices(filters, data.events@, data.events@.len()),
{
    let text_lower = chars_of(to_lowercase(filters.text.as_str()).as_str());
    let mut res: Vec<usize> = Vec::new();
    let mut i: usize = 0;
    while i < data.events.len()
        invariant
            i <= data.events@.len(),
            text_lower@ == unicode_lower(filters.text@),
            res@ == passing_indices(filters, data.events@, i as nat),
        decreases data.events@.len() - i,
    {
        if event_passes(data, &data.events[i], filters, &text_lower) {
            res.push(i);
        }
        i = i + 1;
    }
    res
}

/// The first position of `x` in `s`.
pub open spec fn position_of(s: Seq<usize>, x: usize) -> Option<nat>
    decreases s.len(),
{
    if s.len() == 0 {
        None
    } else if s[0] == x {
        Some(0)
    } else {
        match position_of(s.drop_first(), x) {
            Some(p) => Some(p + 1),
            None => None,
        }
    }
}

/// The selection after the arrow keys: up moves to the previous listed
/// event and down to the next, where there is one; with nothing selected,
/// down selects the first listed event.
pub open spec fn next_selection(listed: Seq<usize>, current: Option<usize>, up: bool, down: bool) -> Option<usize> {
    if !(up || down) {
        current
    } else {
        match current {
            Some(c) => match position_of(listed, c) {
                Some(p) => if up && p > 0 {
                    Some(listed[p - 1])
                } else if down && p + 1 < listed.len() {
                    Some(listed[p as int + 1])
                } else {
                    current
                },
                None => current,
            },
            None => if listed.len() > 0 && down {
                Some(listed[0])
            } else {
                current
            },
        }
    }
}

proof fn lemma_position_of(s: Seq<usize>, x: usize)
    ensures
        match position_of(s, x) {
            Some(p) => p < s.len() && s[p as int] == x && forall|k: int| 0 <= k < p ==> s[k] != x,
            None => forall|k: int| 0 <= k < s.len() ==> s[k] != x,
        },
    decreases s.len(),
{
    if s.len() > 0 && s[0] != x {
        lemma_position_of(s.drop_first(), x);
        match position_of(s.drop_first(), x) {
            Some(p) => {
                assert forall|k: int| 0 <= k < p + 1 implies s[k] != x by {
                    if k > 0 {
                        assert(s[k] == s.drop_first()[k - 1]);
                    }
                }
            },
            None => {
                assert forall|k: int| 0 <= k < s.len() implies s[k] != x by {
                    if k > 0 {
                        assert(s[k] == s.drop_first()[k - 1]);
                    }
                }
            },
        }
    }
}

/// Moves the selection through the listed events with the arrow keys.
pub fn navigate_selection(listed: &Vec<usize>, current: Option<usize>, up: bool, down: bool) -> (res: Option<usize>)
    ensures
        res == next_selection(listed@, current, up, down),
{
    if !(up || down) {
        return current;
    }
    match current {
        Some(c) => {
            let mut p: usize = 0;
            proof {
                lemma_position_of(listed@, c);
            }
            while p < listed.len() && listed[p] != c
                invariant
                    p <= listed@.len(),
                    forall|k: int| 0 <= k < p ==> listed@[k] != c,
                decreases listed@.len() - p,
            {
                p = p + 1;
            }
            if p == listed.len() {
                return current;
            }
            proof {
                assert(position_of(listed@, c) == Some(p as nat));
            }
            if up && p > 0 {
                Some(listed[p - 1])
            } else if down && p + 1 < listed.len() {
                Some(listed[p + 1])
            } else {
                current
            }
        },
        None => {
            if listed.len() > 0 && down {
                Some(listed[0])
            } else {
                current
            }
        },
    }
}

/// Whether the values are strictly increasing.
pub open spec fn strictly_increasing(s: Seq<u64>) -> bool {
    forall|a: int, b: int| 0 <= a < b < s.len() ==> s[a] < s[b]
}

/// The stream ids named among frames `fs`.
pub open spec fn frame_stream_ids(fs: Seq<QuicFrame>) -> Set<u64> {
    Set::new(|id: u64| exists|k: int| 0 <= k < fs.len() && frame_stream_id(#[trigger] fs[k]) == Some(id))
}

/// The stream ids that event `e` offers to the stream filter.
pub open spec fn event_stream_ids(e: Event) -> Set<u64> {
    match e.data {
        EventData::PacketSent(p) | EventData::PacketReceived(p) => match p.frames {
            Some(fs) => frame_stream_ids(fs@),
            None => Set::empty(),
        },
        EventData::StreamStateUpdated { stream_id } => set![stream_id],
        EventData::FramesProcessed { frames } => frame_stream_ids(frames@),
        _ => Set::empty(),
    }
}

/// The path ids that event `e` offers to the path filter.
pub open spec fn event_path_ids(e: Event) -> Set<u64> {
    match path_id_of(e) {
        Some(p) => set![p],
        None => Set::empty(),
    }
}

/// The packet types that event `e` offers to the packet type filter.
pub open spec fn event_packet_types(e: Event) -> Set<PacketType> {
    match e.data {
        EventData::PacketSent(p) | EventData::PacketReceived(p) => set![p.header.packet_type],
        _ => Set::empty(),
    }
}

/// The stream ids offered by the first `n` events.
pub open spec fn offered_stream_ids(events: Seq<Event>, n: nat) -> Set<u64>
    decreases n,
{
    if n == 0 {
        Set::empty()
    } else {
        offered_stream_ids(events, (n - 1) as nat).union(event_stream_ids(events[n - 1]))
    }
}

/// The path ids offered by the first `n` events.
pub open spec fn offered_path_ids(events: Seq<Event>, n: nat) -> Set<u64>
    decreases n,
{
    if n == 0 {
        Set::empty()
    } else {
        offered_path_ids(events, (n - 1) as nat).union(event_path_ids(events[n - 1]))
    }
}

/// The packet types offered by the first `n` events.
pub open spec fn offered_packet_types(events: Seq<Event>, n: nat) -> Set<PacketType>
    decreases n,
{
    if n == 0 {
        Set::empty()
    } else {
        offered_packet_types(events, (n - 1) as nat).union(event_packet_types(events[n - 1]))
    }
}

/// The packet types in the order of their full names.
pub open spec fn packet_types_by_name() -> Seq<PacketType> {
    seq![
        PacketType::ZeroRtt,
        PacketType::OneRtt,
        PacketType::Handshake,
        PacketType::Initial,
        PacketType::Retry,
        PacketType::StatelessReset,
        PacketType::Unknown,
        PacketType::VersionNegotiation,
    ]
}

/// The full names of those of the packet types `ts` that are in `present`,
/// in the order of `ts`.
pub open spec fn names_present(ts: Seq<PacketType>, present: Set<PacketType>) -> Seq<Seq<char>>
    decreases ts.len(),
{
    if ts.len() == 0 {
        Seq::empty()
    } else {
        let r = names_present(ts.drop_last(), present);
        if present.contains(ts.last()) {
            r.push(full_packet_type_of(packet_type_name_of(ts.last())))
        } else {
            r
        }
    }
}

/// The full names of the packet types of `present`, in name order.
pub open spec fn packet_type_names_in(present: Set<PacketType>) -> Seq<Seq<char>> {
    names_present(packet_types_by_name(), present)
}

/// Adds `x` to a strictly increasing vector, keeping it so.
fn insert_sorted(v: &mut Vec<u64>, x: u64)
    requires
        strictly_increasing(old(v)@),
    ensures
        strictly_increasing(final(v)@),
        final(v)@.to_set() == old(v)@.to_set().insert(x),
{
    let mut k: usize = 0;
    while k < v.len() && v[k] < x
        invariant
            k <= v@.len(),
            v@ == old(v)@,
            strictly_increasing(v@),
            forall|a: int| 0 <= a < k ==> v@[a] < x,
        decreases v@.len() - k,
    {
        k = k + 1;
    }
    if k < v.len() && v[k] == x {
        proof {
            assert(v@.to_set() =~= v@.to_set().insert(x)) by {
                assert(v@.contains(x));
            }
        }
        return;
    }
    let ghost before = v@;
    v.insert(k, x);
    proof {
        assert(v@ == before.insert(k as int, x));
        assert forall|a: int, b: int| 0 <= a < b < v@.len() implies v@[a] < v@[b] by {
            if b < k {
                assert(v@[a] == before[a] && v@[b] == before[b]);
            } else if b == k {
                assert(v@[a] == before[a]);
            } else if a < k {
                assert(v@[a] == before[a] && v@[b] == before[b - 1]);
                assert(before[b - 1] >= x) by {
                    if b - 1 > k {
                        assert(before[k as int] < before[b - 1]);
                    }
                }
            } else if a == k {
                assert(v@[b] == before[b - 1]);
                assert(before[b - 1] > x) by {
                    if b - 1 > k {
                        assert(before[k as int] < before[b - 1]);
                    }
                }
            } else {
                assert(v@[a] == before[a - 1] && v@[b] == before[b - 1]);
            }
        }
        assert forall|y: u64| v@.to_set().contains(y) <==> before.to_set().insert(x).contains(y) by {
            if v@.to_set().contains(y) {
                let j = choose|j: int| 0 <= j < v@.len() && v@[j] == y;
                if j < k {
                    assert(before[j] == y);
                } else if j > k {
                    assert(before[j - 1] == y);
                }
            }
            if before.to_set().contains(y) && y != x {
                let j = choose|j: int| 0 <= j < before.len() && before[j] == y;
                if j < k {
                    assert(v@[j] == y);
                } else {
                    assert(v@[j + 1] == y);
                }
            }
            if y == x {
                assert(v@[k as int] == x);
            }
        }
        assert(v@.to_set() =~= before.to_set().insert(x));
    }
}

/// Adds the stream ids named among frames `fs`.
fn add_frame_stream_ids(v: &mut Vec<u64>, fs: &Vec<QuicFrame>)
    requires
        strictly_increasing(old(v)@),
    ensures
        strictly_increasing(final(v)@),
        final(v)@.to_set() == old(v)@.to_set().union(frame_stream_ids(fs@)),
{
    let mut k: usize = 0;
    while k < fs.len()
        invariant
            k <= fs@.len(),
            strictly_increasing(v@),
            v@.to_set() == old(v)@.to_set().union(frame_stream_ids(fs@.take(k as int))),
        decreases fs@.len() - k,
    {
        let ghost before = v@.to_set();
        if let Some(id) = get_frame_stream_id(&fs[k]) {
            insert_sorted(v, id);
        }
        proof {
            assert(frame_stream_ids(fs@.take(k + 1)) =~= frame_stream_ids(fs@.take(k as int)).union(
                match frame_stream_id(fs@[k as int]) {
                    Some(id) => set![id],
                    None => Set::empty(),
                },
            )) by {
                assert forall|id: u64| frame_stream_ids(fs@.take(k + 1)).contains(id) implies frame_stream_ids(
                    fs@.take(k as int),
                ).contains(id) || frame_stream_id(fs@[k as int]) == Some(id) by {
                    let j = choose|j: int| 0 <= j < k + 1 && frame_stream_id(#[trigger] fs@.take(k + 1)[j]) == Some(id);
                    if j < k {
                        assert(fs@.take(k as int)[j] == fs@.take(k + 1)[j]);
                    }
                }
                assert forall|id: u64| frame_stream_ids(fs@.take(k as int)).contains(id) implies frame_stream_ids(
                    fs@.take(k + 1),
                ).contains(id) by {
                    let j = choose|j: int| 0 <= j < k && frame_stream_id(#[trigger] fs@.take(k as int)[j]) == Some(id);
                    assert(fs@.take(k + 1)[j] == fs@.take(k as int)[j]);
                }
                if let Some(id) = frame_stream_id(fs@[k as int]) {
                    assert(fs@.take(k + 1)[k as int] == fs@[k as int]);
                }
            }
        }
        k = k + 1;
    }
    proof {
        assert(fs@.take(k as int) =~= fs@);
    }
}

/// The stream ids, packet types and path ids that a trace offers to the
/// filters: ids in increasing order, packet type names in name order, each
/// once.
pub fn extract_filter_options(data: &QlogData) -> (res: (Vec<u64>, Vec<String>, Vec<u64>))
    ensures
        strictly_increasing(res.0@),
        res.0@.to_set() == offered_stream_ids(data.events@, data.events@.len()),
        res.1@.map_values(|s: String| s@) == packet_type_names_in(
            offered_packet_types(data.events@, data.events@.len()),
        ),
        strictly_increasing(res.2@),
        res.2@.to_set() == offered_path_ids(data.events@, data.events@.len()),
{
    let mut stream_ids: Vec<u64> = Vec::new();
    let mut path_ids: Vec<u64> = Vec::new();
    let mut seen: [bool; 8] = [false; 8];
    let events = &data.events;
    let mut i: usize = 0;
    proof {
        assert(stream_ids@.to_set() =~= Set::<u64>::empty());
        assert(path_ids@.to_set() =~= Set::<u64>::empty());
    }
    while i < events.len()
        invariant
            i <= events@.len(),
            strictly_increasing(stream_ids@),
            strictly_increasing(path_ids@),
            stream_ids@.to_set() == offered_stream_ids(events@, i as nat),
            path_ids@.to_set() == offered_path_ids(events@, i as nat),
            forall|k: int| 0 <= k < 8 ==> seen@[k] == offered_packet_types(events@, i as nat).contains(
                packet_types_by_name()[k],
            ),
        decreases events@.len() - i,
    {
        let ghost s0 = stream_ids@.to_set();
        let ghost p0 = path_ids@.to_set();
        match &events[i].data {
            EventData::PacketSent(p) | EventData::PacketReceived(p) => {
                let slot = type_slot(p.header.packet_type);
                seen[slot] = true;
                if let Some(pid) = p.header.path_id {
                    insert_sorted(&mut path_ids, pid);
                }
                if let Some(fs) = &p.frames {
                    add_frame_stream_ids(&mut stream_ids, fs);
                }
            },
            EventData::PacketLost { header } => {
                if let Some(h) = header {
                    if let Some(pid) = h.path_id {
                        insert_sorted(&mut path_ids, pid);
                    }
                }
            },
            EventData::StreamStateUpdated { stream_id } => {
                insert_sorted(&mut stream_ids, *stream_id);
            },
            EventData::FramesProcessed { frames } => {
                add_frame_stream_ids(&mut stream_ids, frames);
            },
            _ => {},
        }
        proof {
            assert(stream_ids@.to_set() =~= offered_stream_ids(events@, (i + 1) as nat));
            assert(path_ids@.to_set() =~= offered_path_ids(events@, (i + 1) as nat));
        }
        i = i + 1;
    }
    let mut names: Vec<String> = Vec::new();
    let ghost present = offered_packet_types(events@, events@.len());
    let mut k: usize = 0;
    while k < 8
        invariant
            k <= 8,
            present == offered_packet_types(events@, events@.len()),
            forall|j: int| 0 <= j < 8 ==> seen@[j] == present.contains(packet_types_by_name()[j]),
            names@.map_values(|s: String| s@) == names_present(packet_types_by_name().take(k as int), present),
        decreases 8 - k,
    {
        let t = slot_type(k);
        proof {
            assert(packet_types_by_name().take(k + 1).drop_last() =~= packet_types_by_name().take(k as int));
        }
        if seen[k] {
            names.push(full_packet_type(packet_type_name(t)));
        }
        proof {
            assert(names@.map_values(|s: String| s@) =~= names_present(packet_types_by_name().take(k + 1), present));
        }
        k = k + 1;
    }
    proof {
        assert(packet_types_by_name().take(8) =~= packet_types_by_name());
    }
    (stream_ids, names, path_ids)
}

/// The position of a packet type in name order.
fn type_slot(t: PacketType) -> (res: usize)
    ensures
        res < 8,
        packet_types_by_name()[res as int] == t,
{
    match t {
        PacketType::ZeroRtt => 0,
        PacketType::OneRtt => 1,
        PacketType::Handshake => 2,
        PacketType::Initial => 3,
        PacketType::Retry => 4,
        PacketType::StatelessReset => 5,
        PacketType::Unknown => 6,
        PacketType::VersionNegotiation => 7,
    }
}

/// The packet type at a position of name order.
fn slot_type(k: usize) -> (res: PacketType)
    requires
        k < 8,
    ensures
        res == packet_types_by_name()[k as int],
{
    if k == 0 {
        PacketType::ZeroRtt
    } else if k == 1 {
        PacketType::OneRtt
    } else if k == 2 {
        PacketType::Handshake
    } else if k == 3 {
        PacketType::Initial
    } else if k == 4 {
        PacketType::Retry
    } else if k == 5 {
        PacketType::StatelessReset
    } else if k == 6 {
        PacketType::Unknown
    } else {
        PacketType::VersionNegotiation
    }
}

/// The filtered list holds exactly the events that the filters let
/// through, each once, in log order.
pub proof fn filtered_list_exact(f: &EventListFilters, events: Seq<Event>, n: nat)
    requires
        n <= events.len(),
        n <= usize::MAX + 1,
    ensures
        forall|a: int, b: int| 0 <= a < b < passing_indices(f, events, n).len() ==> passing_indices(f, events, n)[a]
            < passing_indices(f, events, n)[b],
        forall|i: usize| i < n ==> (passing_indices(f, events, n).contains(i) <==> passes(f, events[i as int])),
        forall|a: int| 0 <= a < passing_indices(f, events, n).len() ==> passing_indices(f, events, n)[a] < n,
    decreases n,
{
    if n > 0 {
        filtered_list_exact(f, events, (n - 1) as nat);
        let r = passing_indices(f, events, (n - 1) as nat);
        let s = passing_indices(f, events, n);
        assert forall|i: usize| i < n implies (s.contains(i) <==> passes(f, events[i as int])) by {
            if s.contains(i) && i < n - 1 {
                let j = choose|j: int| 0 <= j < s.len() && s[j] == i;
                if j < r.len() {
                    assert(r[j] == i);
                }
            }
            if i < n - 1 && r.contains(i) {
                let j = choose|j: int| 0 <= j < r.len() && r[j] == i;
                assert(s[j] == i);
            }
            if i == n - 1 && passes(f, events[i as int]) {
                assert(s[s.len() - 1] == i);
            }
            if i == n - 1 && s.contains(i) {
                let j = choose|j: int| 0 <= j < s.len() && s[j] == i;
                if j < r.len() {
                    assert(r[j] == i);
                }
            }
        }
    }
}

/// The arrow keys keep the selection, or move it to one of the listed events.
pub proof fn selection_stays_listed(listed: Seq<usize>, current: Option<usize>, up: bool, down: bool)
    ensures
        next_selection(listed, current, up, down) == current || listed.contains(
            next_selection(listed, current, up, down)->Some_0,
        ) && next_selection(listed, current, up, down) is Some,
{
    if up || down {
        if let Some(c) = current {
            lemma_position_of(listed, c);
            if let Some(p) = position_of(listed, c) {
                if up && p > 0 {
                    assert(listed[p - 1] == listed[p - 1]);
                } else if down && p + 1 < listed.len() {
                    assert(listed[p as int + 1] == listed[p as int + 1]);
                }
            }
        } else if listed.len() > 0 && down {
            assert(listed[0] == listed[0]);
        }
    }
}

/// Metrics and congestion-state updates are listed under "metrics", so that
/// with metrics hidden none of them is listed, whatever the other filters.
pub proof fn hidden_metrics_are_not_listed(f: &EventListFilters, events: Seq<Event>)
    requires
        events.len() <= usize::MAX,
        !f.show_metrics,
    ensures
        forall|e: Event| #![trigger category_of(e)]
            (e.data is MetricsUpdated || e.data is CongestionStateUpdated) ==> category_of(e) == "metrics"@,
        forall|i: usize| #![trigger events[i as int]]
            i < events.len() && (events[i as int].data is MetricsUpdated || events[i as int].data is CongestionStateUpdated)
                ==> !passing_indices(f, events, events.len()).contains(i),
{
    reveal_strlit("packet");
    reveal_strlit("metrics");
    filtered_list_exact(f, events, events.len());
    assert forall|i: usize| #![trigger events[i as int]]
        i < events.len() && (events[i as int].data is MetricsUpdated || events[i as int].data is CongestionStateUpdated)
        implies !passing_indices(f, events, events.len()).contains(i) by {
        assert(category_of(events[i as int]) == "metrics"@);
        assert(!passes(f, events[i as int]));
    }
}

} // verus!
