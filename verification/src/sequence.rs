//! The sequence diagram's data: the packets of each trace, the arrows that
//! join a packet sent by one endpoint to its reception by the other, the
//! network tuples of a trace, and the labels that the diagram writes.
use crate::event_list::{names_present, offered_packet_types, packet_type_names_in, packet_types_by_name, strictly_increasing};
use crate::frames::{as_f64, as_f64_value, display_name_of, fixed_point, fixed_point_chars, frame_type_of, full_packet_type, full_packet_type_of, packet_type_name, packet_type_name_of, short_packet_type, short_packet_type_of, FrameType, FrameTypeView};
use crate::model::{Event, EventData, ExtraValue, PacketEvent, PacketHeader, PacketType, QlogData, QuicFrame, TupleEndpoint};
use crate::text::{chars_eq, chars_of, occurs_at, decimal, extend_chars, owned, string_from_chars, u64_to_decimal};
use vstd::prelude::*;

verus! {

/// How the diagram tells paths apart.
#[derive(Debug, Clone, Copy, PartialEq, Eq, Structural)]
pub enum VisualizationMode {
    ColorCoded,
    VerticalLanes,
}

/// How a metrics event is drawn.
#[derive(Debug, Clone, Copy, PartialEq, Eq, Structural)]
pub enum MetricsDisplayStyle {
    Box,
    Marker,
}

/// Whether metrics show as events or as graphs.
#[derive(Debug, Clone, Copy, PartialEq, Eq, Structural)]
pub enum MetricsVisualizationMode {
    Events,
    Graphs,
}

/// The kind of a non-packet event drawn beside the diagram.
#[derive(Debug, Clone)]
pub enum MetricsEventType {
    ConnectionStarted,
    ConnectionStateUpdated,
    MetricsUpdated,
    CongestionStateUpdated,
    PacketLost,
    TimerUpdated,
    Other(String),
}

/// The label of a kind of metrics event.
pub open spec fn metrics_event_name(t: MetricsEventType) -> Seq<char> {
    match t {
        MetricsEventType::ConnectionStarted => "Connection Started"@,
        MetricsEventType::ConnectionStateUpdated => "Connection State"@,
        MetricsEventType::MetricsUpdated => "Metrics Updated"@,
        MetricsEventType::CongestionStateUpdated => "Congestion State"@,
        MetricsEventType::PacketLost => "Packet Lost"@,
        MetricsEventType::TimerUpdated => "Timer Updated"@,
        MetricsEventType::Other(name) => name@,
    }
}

impl MetricsEventType {
    /// The label of the kind.
    pub fn name(&self) -> (res: String)
        ensures
            res@ == metrics_event_name(*self),
    {
        match self {
            MetricsEventType::ConnectionStarted => owned("Connection Started"),
            MetricsEventType::ConnectionStateUpdated => owned("Connection State"),
            MetricsEventType::MetricsUpdated => owned("Metrics Updated"),
            MetricsEventType::CongestionStateUpdated => owned("Congestion State"),
            MetricsEventType::PacketLost => owned("Packet Lost"),
            MetricsEventType::TimerUpdated => owned("Timer Updated"),
            MetricsEventType::Other(name) => owned(name.as_str()),
        }
    }

    /// Every kind is drawn as a box.
    pub fn display_style(&self) -> (res: MetricsDisplayStyle)
        ensures
            res == MetricsDisplayStyle::Box,
    {
        MetricsDisplayStyle::Box
    }
}

/// A path of one of the traces shown.
#[derive(Debug, Clone, Copy, PartialEq, Eq, Structural, Hash)]
pub struct PathKey {
    pub file_idx: usize,
    pub path_id: u64,
}

/// Whether a packet was sent or received by the trace's endpoint.
#[derive(Debug, Clone, Copy, PartialEq, Eq, Structural)]
pub enum PacketDirection {
    Sent,
    Received,
}

/// The kinds of metrics events, without the name that `Other` carries.
pub ghost enum MetricsKind {
    ConnectionStarted,
    ConnectionStateUpdated,
    MetricsUpdated,
    CongestionStateUpdated,
    PacketLost,
    TimerUpdated,
    Other,
}

/// The kind of a metrics event type.
pub open spec fn kind_of_type(t: MetricsEventType) -> MetricsKind {
    match t {
        MetricsEventType::ConnectionStarted => MetricsKind::ConnectionStarted,
        MetricsEventType::ConnectionStateUpdated => MetricsKind::ConnectionStateUpdated,
        MetricsEventType::MetricsUpdated => MetricsKind::MetricsUpdated,
        MetricsEventType::CongestionStateUpdated => MetricsKind::CongestionStateUpdated,
        MetricsEventType::PacketLost => MetricsKind::PacketLost,
        MetricsEventType::TimerUpdated => MetricsKind::TimerUpdated,
        MetricsEventType::Other(_) => MetricsKind::Other,
    }
}

/// The kind of metrics event that an event is drawn as, if any: packets are
/// drawn as arrows, metrics updates only where they report a smoothed
/// round-trip time or bytes in flight, losses only of numbered packets.
pub open spec fn metrics_kind_of(e: Event) -> Option<MetricsKind> {
    match e.data {
        EventData::ConnectionStarted => Some(MetricsKind::ConnectionStarted),
        EventData::MetricsUpdated(m) => if m.has_smoothed_rtt || m.bytes_in_flight is Some {
            Some(MetricsKind::MetricsUpdated)
        } else {
            None
        },
        EventData::CongestionStateUpdated { .. } => Some(MetricsKind::CongestionStateUpdated),
        EventData::ConnectionStateUpdated { .. } => Some(MetricsKind::ConnectionStateUpdated),
        EventData::PacketLost { header } => match header {
            Some(h) => if h.packet_number is Some {
                Some(MetricsKind::PacketLost)
            } else {
                None
            },
            None => None,
        },
        EventData::PacketSent(_) | EventData::PacketReceived(_) => None,
        EventData::TimerUpdated { .. } => Some(MetricsKind::TimerUpdated),
        _ => Some(MetricsKind::Other),
    }
}

/// The metrics event type of an event, if it is drawn as one; `other_name`
/// names the kinds that the diagram has no type of its own for.
pub fn metrics_event_type(event: &Event, other_name: &str) -> (res: Option<MetricsEventType>)
    ensures
        match metrics_kind_of(*event) {
            Some(k) => res is Some && kind_of_type(res->Some_0) == k && (k == MetricsKind::Other
                ==> metrics_event_name(res->Some_0) == other_name@),
            None => res is None,
        },
{
    match &event.data {
        EventData::ConnectionStarted => Some(MetricsEventType::ConnectionStarted),
        EventData::MetricsUpdated(m) => {
            if m.has_smoothed_rtt || m.bytes_in_flight.is_some() {
                Some(MetricsEventType::MetricsUpdated)
            } else {
                None
            }
        },
        EventData::CongestionStateUpdated { .. } => Some(MetricsEventType::CongestionStateUpdated),
        EventData::ConnectionStateUpdated { .. } => Some(MetricsEventType::ConnectionStateUpdated),
        EventData::PacketLost { header } => match header {
            Some(h) => {
                if h.packet_number.is_some() {
                    Some(MetricsEventType::PacketLost)
                } else {
                    None
                }
            },
            None => None,
        },
        EventData::PacketSent(_) | EventData::PacketReceived(_) => None,
        EventData::TimerUpdated { .. } => Some(MetricsEventType::TimerUpdated),
        _ => Some(MetricsEventType::Other(owned(other_name))),
    }
}

/// The path that a metrics event is drawn on: the path that a metrics,
/// congestion or timer update names; for the other kinds, the event's path.
pub open spec fn metrics_path_of(e: Event) -> Option<u64> {
    match e.data {
        EventData::MetricsUpdated(m) => m.path_id,
        EventData::CongestionStateUpdated { path_id, .. } => path_id,
        EventData::TimerUpdated { path_id } => path_id,
        _ => Some(path_of(e.extra_path_id, None)),
    }
}

/// The path that a metrics event is drawn on.
pub fn metrics_event_path(event: &Event) -> (res: Option<u64>)
    ensures
        res == metrics_path_of(*event),
{
    match &event.data {
        EventData::MetricsUpdated(m) => m.path_id,
        EventData::CongestionStateUpdated { path_id, .. } => *path_id,
        EventData::TimerUpdated { path_id } => *path_id,
        _ => extract_path_id(event, None),
    }
}

/// The tuple-assigned events among the first `n`, by index.
pub open spec fn tuple_events(events: Seq<Event>, n: nat) -> Seq<usize>
    decreases n,
{
    if n == 0 {
        Seq::empty()
    } else {
        let r = tuple_events(events, (n - 1) as nat);
        if events[n - 1].data is TupleAssigned {
            r.push((n - 1) as usize)
        } else {
            r
        }
    }
}

/// Whether `info` is the tuple that event `e` assigns.
pub open spec fn describes_tuple(info: TupleInfo, e: Event) -> bool {
    match e.data {
        EventData::TupleAssigned { tuple_id, remote, local } => {
            &&& info.tuple_id@ == tuple_id@
            &&& holds_text(
                info.remote_addr,
                match remote {
                    Some(r) => endpoint_text(r),
                    None => None,
                },
            )
            &&& holds_text(
                info.local_addr,
                match local {
                    Some(l) => endpoint_text(l),
                    None => None,
                },
            )
        },
        _ => false,
    }
}

/// The tuples that a trace assigns, in log order; a later assignment of the
/// same tuple id comes after, and replaces, an earlier one.
pub fn tuple_infos(qlog: &QlogData) -> (res: Vec<TupleInfo>)
    ensures
        res@.len() == tuple_events(qlog.events@, qlog.events@.len()).len(),
        forall|k: int| 0 <= k < res@.len() ==> describes_tuple(
            #[trigger] res@[k],
            qlog.events@[tuple_events(qlog.events@, qlog.events@.len())[k] as int],
        ),
{
    let events = &qlog.events;
    let mut res: Vec<TupleInfo> = Vec::new();
    let mut i: usize = 0;
    while i < events.len()
        invariant
            i <= events@.len(),
            res@.len() == tuple_events(events@, i as nat).len(),
            forall|k: int| 0 <= k < res@.len() ==> describes_tuple(
                #[trigger] res@[k],
                events@[tuple_events(events@, i as nat)[k] as int],
            ),
        decreases events@.len() - i,
    {
        let ghost r = tuple_events(events@, i as nat);
        if let EventData::TupleAssigned { tuple_id, remote, local } = &events[i].data {
            let info = TupleInfo::from_tuple_assigned(owned(tuple_id.as_str()), remote.as_ref(), local.as_ref());
            res.push(info);
            proof {
                let r1 = tuple_events(events@, (i + 1) as nat);
                assert(r1 == r.push(i));
                assert forall|k: int| 0 <= k < res@.len() implies describes_tuple(
                    #[trigger] res@[k],
                    events@[r1[k] as int],
                ) by {
                    if k < r.len() {
                        assert(r1[k] == r[k]);
                    }
                }
            }
        }
        i = i + 1;
    }
    res
}

/// A byte count in binary units with one decimal, without a space: `512B`,
/// `1.5KiB`.
pub open spec fn compact_bytes_of(bytes: u64) -> Seq<char> {
    if bytes < 0x400 {
        decimal(bytes as nat) + "B"@
    } else if bytes < 0x10_0000 {
        fixed_point(as_f64(bytes as nat), 0x400, 1) + "KiB"@
    } else if bytes < 0x4000_0000 {
        fixed_point(as_f64(bytes as nat), 0x10_0000, 1) + "MiB"@
    } else {
        fixed_point(as_f64(bytes as nat), 0x4000_0000, 1) + "GiB"@
    }
}

/// Formats a byte count compactly, with one decimal.
pub fn format_bytes(bytes: u64) -> (res: String)
    ensures
        res@ == compact_bytes_of(bytes),
{
    let mut out: Vec<char>;
    let suffix: &str;
    if bytes < 0x400 {
        out = u64_to_decimal(bytes);
        suffix = "B";
    } else if bytes < 0x10_0000 {
        out = fixed_point_chars(as_f64_value(bytes), 0x400, 1);
        suffix = "KiB";
    } else if bytes < 0x4000_0000 {
        out = fixed_point_chars(as_f64_value(bytes), 0x10_0000, 1);
        suffix = "MiB";
    } else {
        out = fixed_point_chars(as_f64_value(bytes), 0x4000_0000, 1);
        suffix = "GiB";
    }
    let tail = chars_of(suffix);
    extend_chars(&mut out, &tail);
    string_from_chars(out)
}

/// A network tuple of a trace, with its endpoints' addresses.
#[derive(Debug, Clone)]
pub struct TupleInfo {
    pub tuple_id: String,
    pub remote_addr: Option<String>,
    pub local_addr: Option<String>,
}

/// The address of an endpoint: IPv4 with its port, else IPv6 with its port,
/// else the bare IPv4, else the bare IPv6; nothing without an address.
pub open spec fn endpoint_text(e: TupleEndpoint) -> Option<Seq<char>> {
    match (e.ip_v4, e.port_v4) {
        (Some(ip), Some(port)) => Some(ip@ + ":"@ + decimal(port as nat)),
        _ => match (e.ip_v6, e.port_v6) {
            (Some(ip), Some(port)) => Some("["@ + ip@ + "]:"@ + decimal(port as nat)),
            _ => match e.ip_v4 {
                Some(ip) => Some(ip@),
                None => match e.ip_v6 {
                    Some(ip) => Some("["@ + ip@ + "]"@),
                    None => None,
                },
            },
        },
    }
}

/// Whether `o` holds the text `t`, or nothing where `t` is nothing.
pub open spec fn holds_text(o: Option<String>, t: Option<Seq<char>>) -> bool {
    match t {
        Some(s) => o is Some && o->Some_0@ == s,
        None => o is None,
    }
}

/// The address of an endpoint, for display.
pub fn format_endpoint_info(info: &TupleEndpoint) -> (res: Option<String>)
    ensures
        holds_text(res, endpoint_text(*info)),
{
    if let (Some(ip), Some(port)) = (&info.ip_v4, info.port_v4) {
        let mut v = chars_of(ip.as_str());
        let colon = chars_of(":");
        extend_chars(&mut v, &colon);
        let d = u64_to_decimal(port as u64);
        extend_chars(&mut v, &d);
        proof {
            assert(v@ =~= ip@ + ":"@ + decimal(port as nat));
        }
        Some(string_from_chars(v))
    } else if let (Some(ip), Some(port)) = (&info.ip_v6, info.port_v6) {
        let mut v = chars_of("[");
        let a = chars_of(ip.as_str());
        extend_chars(&mut v, &a);
        let close = chars_of("]:");
        extend_chars(&mut v, &close);
        let d = u64_to_decimal(port as u64);
        extend_chars(&mut v, &d);
        proof {
            assert(v@ =~= "["@ + ip@ + "]:"@ + decimal(port as nat));
        }
        Some(string_from_chars(v))
    } else if let Some(ip) = &info.ip_v4 {
        Some(owned(ip.as_str()))
    } else if let Some(ip) = &info.ip_v6 {
        let mut v = chars_of("[");
        let a = chars_of(ip.as_str());
        extend_chars(&mut v, &a);
        let close = chars_of("]");
        extend_chars(&mut v, &close);
        proof {
            assert(v@ =~= "["@ + ip@ + "]"@);
        }
        Some(string_from_chars(v))
    } else {
        None
    }
}

/// Whether `c` is a hexadecimal digit.
pub open spec fn is_hex_char(c: char) -> bool {
    ('0' <= c && c <= '9') || ('a' <= c && c <= 'f') || ('A' <= c && c <= 'F')
}

/// Whether `c` is a hexadecimal digit.
fn hex_char(c: char) -> (res: bool)
    ensures
        res == is_hex_char(c),
{
    ('0' <= c && c <= '9') || ('a' <= c && c <= 'f') || ('A' <= c && c <= 'F')
}

/// Whether `ip` is a private IPv6 address, one of the unique local range
/// fc00::/7: its first group has four hexadecimal digits and begins with
/// `fc` or `fd`.
pub open spec fn is_private_ipv6(ip: Seq<char>) -> bool {
    &&& ip.len() >= 5
    &&& (ip[0] == 'f' || ip[0] == 'F')
    &&& (ip[1] == 'c' || ip[1] == 'C' || ip[1] == 'd' || ip[1] == 'D')
    &&& is_hex_char(ip[2])
    &&& is_hex_char(ip[3])
    &&& ip[4] == ':'
}

/// Whether `a` is a private IPv6 address on port 12345, written as the
/// tuple addresses are: `[ip]:12345`.
pub open spec fn is_relay_address(a: Seq<char>) -> bool {
    &&& a.len() >= 8
    &&& a[0] == '['
    &&& a.skip(a.len() - 7) == "]:12345"@
    &&& is_private_ipv6(a.subrange(1, a.len() - 7))
}

impl TupleInfo {
    /// The remote address, or `unknown`.
    pub fn remote_display(&self) -> (res: String)
        ensures
            res@ == match self.remote_addr {
                Some(a) => a@,
                None => "unknown"@,
            },
    {
        match &self.remote_addr {
            Some(a) => owned(a.as_str()),
            None => owned("unknown"),
        }
    }

    /// Whether the connection looks relayed: the remote address is a private
    /// IPv6 address on port 12345.
    pub fn is_relayed(&self) -> (res: bool)
        ensures
            res == match self.remote_addr {
                Some(a) => is_relay_address(a@),
                None => false,
            },
    {
        match &self.remote_addr {
            Some(a) => {
                let s = chars_of(a.as_str());
                let n = s.len();
                if n < 13 {
                    return false;
                }
                let suffix = chars_of("]:12345");
                proof {
                    reveal_strlit("]:12345");
                    assert(s@.skip(n - 7) =~= s@.subrange(n - 7, n as int));
                }
                if !occurs_at(&s, &suffix, n - 7) {
                    return false;
                }
                let c0 = s[0];
                let c1 = s[1];
                let c2 = s[2];
                let c3 = s[3];
                let c4 = s[4];
                let c5 = s[5];
                proof {
                    let ip = s@.subrange(1, n - 7);
                    assert(ip[0] == c1 && ip[1] == c2 && ip[2] == c3 && ip[3] == c4 && ip[4] == c5);
                }
                c0 == '[' && (c1 == 'f' || c1 == 'F') && (c2 == 'c' || c2 == 'C' || c2 == 'd' || c2 == 'D')
                    && hex_char(c3) && hex_char(c4) && c5 == ':'
            },
            None => false,
        }
    }

    /// The tuple of a tuple-assigned event.
    pub fn from_tuple_assigned(tuple_id: String, remote: Option<&TupleEndpoint>, local: Option<&TupleEndpoint>) -> (res: Self)
        ensures
            res.tuple_id == tuple_id,
            holds_text(
                res.remote_addr,
                match remote {
                    Some(e) => endpoint_text(*e),
                    None => None,
                },
            ),
            holds_text(
                res.local_addr,
                match local {
                    Some(e) => endpoint_text(*e),
                    None => None,
                },
            ),
    {
        let remote_addr = match remote {
            Some(e) => format_endpoint_info(e),
            None => None,
        };
        let local_addr = match local {
            Some(e) => format_endpoint_info(e),
            None => None,
        };
        TupleInfo { tuple_id, remote_addr, local_addr }
    }
}

/// The value of a decimal digit string.
pub open spec fn digits_value(d: Seq<char>) -> nat
    decreases d.len(),
{
    if d.len() == 0 {
        0
    } else {
        (digits_value(d.drop_last()) * 10 + (d.last() as int - '0' as int)) as nat
    }
}

/// The digits of a number without its leading `+`, if it has one.
pub open spec fn unsigned_digits(s: Seq<char>) -> Seq<char> {
    if s.len() > 0 && s[0] == '+' {
        s.drop_first()
    } else {
        s
    }
}

/// Whether every character is an ASCII digit.
pub open spec fn all_digits(d: Seq<char>) -> bool {
    forall|k: int| 0 <= k < d.len() ==> '0' <= #[trigger] d[k] <= '9'
}

/// What `str::parse::<u64>` gives: an optional `+`, then one or more ASCII
/// digits whose value fits in `u64`.
pub open spec fn parse_u64_of(s: Seq<char>) -> Option<u64> {
    let d = unsigned_digits(s);
    if d.len() == 0 || !all_digits(d) {
        None
    } else if digits_value(d) > u64::MAX {
        None
    } else {
        Some(digits_value(d) as u64)
    }
}

proof fn lemma_digits_value_grows(d: Seq<char>, k: int)
    requires
        0 <= k <= d.len(),
        forall|j: int| 0 <= j < d.len() ==> '0' <= #[trigger] d[j] <= '9',
    ensures
        digits_value(d.take(k)) <= digits_value(d),
    decreases d.len() - k,
{
    if k < d.len() {
        lemma_digits_value_grows(d, k + 1);
        assert(d.take(k + 1).drop_last() =~= d.take(k));
    } else {
        assert(d.take(k) =~= d);
    }
}

/// Parses a decimal `u64` as `str::parse` does.
pub fn parse_u64(s: &str) -> (res: Option<u64>)
    ensures
        res == parse_u64_of(s@),
{
    let c = chars_of(s);
    let start: usize = if c.len() > 0 && c[0] == '+' {
        1
    } else {
        0
    };
    let ghost d = if c@.len() > 0 && c@[0] == '+' {
        c@.drop_first()
    } else {
        c@
    };
    proof {
        assert(d =~= c@.skip(start as int));
    }
    if start == c.len() {
        return None;
    }
    let mut k: usize = start;
    while k < c.len()
        invariant
            start <= k <= c@.len(),
            c@ == s@,
            d == unsigned_digits(s@),
            d == c@.skip(start as int),
            forall|j: int| start <= j < k ==> '0' <= #[trigger] c@[j] <= '9',
        decreases c@.len() - k,
    {
        if !('0' <= c[k] && c[k] <= '9') {
            proof {
                assert(!('0' <= d[k - start] <= '9'));
            }
            return None;
        }
        k = k + 1;
    }
    proof {
        assert forall|j: int| 0 <= j < d.len() implies '0' <= #[trigger] d[j] <= '9' by {
            assert(d[j] == c@[j + start]);
        }
    }
    let mut value: u64 = 0;
    let mut k: usize = start;
    while k < c.len()
        invariant
            start <= k <= c@.len(),
            c@ == s@,
            d == unsigned_digits(s@),
            d == c@.skip(start as int),
            forall|j: int| 0 <= j < d.len() ==> '0' <= #[trigger] d[j] <= '9',
            value == digits_value(d.take(k - start)),
        decreases c@.len() - k,
    {
        proof {
            assert(d[k - start] == c@[k as int]);
        }
        let digit = (c[k] as u32 - '0' as u32) as u64;
        proof {
            assert(d.take(k + 1 - start).drop_last() =~= d.take(k - start));
            assert(d.take(k + 1 - start).last() == c@[k as int]);
        }
        if value > (u64::MAX - digit) / 10 {
            proof {
                assert(digits_value(d.take(k + 1 - start)) > u64::MAX) by (nonlinear_arith)
                    requires
                        digits_value(d.take(k + 1 - start)) == value * 10 + digit,
                        value > (u64::MAX - digit) / 10,
                        digit <= 9,
                ;
                lemma_digits_value_grows(d, k + 1 - start);
            }
            return None;
        }
        proof {
            assert(value * 10 + digit <= u64::MAX) by (nonlinear_arith)
                requires
                    value <= (u64::MAX - digit) / 10,
                    digit <= 9,
            ;
        }
        value = value * 10 + digit;
        k = k + 1;
    }
    proof {
        assert(d.take(d.len() as int) =~= d);
    }
    Some(value)
}

/// The path of an event: the packet header's path where it has one, else the
/// `path_id` field as a decimal string or a number, else path 0.
pub open spec fn path_of(extra: Option<ExtraValue>, header_path_id: Option<u64>) -> u64 {
    match header_path_id {
        Some(p) => p,
        None => match extra {
            Some(ExtraValue::Text(s)) => match parse_u64_of(s@) {
                Some(p) => p,
                None => 0,
            },
            Some(ExtraValue::Number(n)) => n,
            _ => 0,
        },
    }
}

/// The path of an event, as the diagram assigns it.
pub fn extract_path_id(event: &Event, header_path_id: Option<u64>) -> (res: Option<u64>)
    ensures
        res == Some(path_of(event.extra_path_id, header_path_id)),
{
    if let Some(pid) = header_path_id {
        return Some(pid);
    }
    match &event.extra_path_id {
        Some(ExtraValue::Text(s)) => match parse_u64(s.as_str()) {
            Some(p) => Some(p),
            None => Some(0),
        },
        Some(ExtraValue::Number(n)) => Some(*n),
        _ => Some(0),
    }
}

/// Runs of frames with the same display name: for each, its first frame and
/// its length.
pub open spec fn frame_runs(names: Seq<Seq<char>>) -> Seq<(nat, nat)>
    decreases names.len(),
{
    if names.len() == 0 {
        Seq::empty()
    } else {
        let r = frame_runs(names.drop_last());
        if r.len() > 0 && names[r.last().0 as int] == names.last() {
            r.update(r.len() - 1, (r.last().0, r.last().1 + 1))
        } else {
            r.push(((names.len() - 1) as nat, 1nat))
        }
    }
}

/// Whether the `len` names from `start` on are all the name at `start`.
pub open spec fn run_uniform(names: Seq<Seq<char>>, start: nat, len: nat) -> bool {
    forall|i: int| start <= i < start + len ==> #[trigger] names[i] == names[start as int]
}

proof fn lemma_uniform_prefix(front: Seq<Seq<char>>, names: Seq<Seq<char>>, start: nat, len: nat)
    requires
        names.len() > 0,
        front == names.drop_last(),
        start + len <= front.len(),
        run_uniform(front, start, len),
    ensures
        run_uniform(names, start, len),
{
    assert forall|i: int| start <= i < start + len implies #[trigger] names[i] == names[start as int] by {
        assert(front[i] == names[i]);
        assert(front[start as int] == names[start as int]);
    }
}

proof fn lemma_runs_shape(names: Seq<Seq<char>>)
    ensures
        ({
            let r = frame_runs(names);
            &&& (r.len() == 0 <==> names.len() == 0)
            &&& r.len() > 0 ==> r[0].0 == 0 && r.last().0 + r.last().1 == names.len()
            &&& forall|j: int| 0 <= j < r.len() ==> (#[trigger] r[j]).1 >= 1 && r[j].0 + r[j].1 <= names.len()
            &&& forall|j: int| 0 < j < r.len() ==> (#[trigger] r[j]).0 == r[j - 1].0 + r[j - 1].1
        }),
    decreases names.len(),
{
    if names.len() > 0 {
        lemma_runs_shape(names.drop_last());
        let r0 = frame_runs(names.drop_last());
        let r = frame_runs(names);
        if r0.len() > 0 {
            assert(r[0].0 == r0[0].0);
        }
        assert forall|j: int| 0 < j < r.len() implies (#[trigger] r[j]).0 == r[j - 1].0 + r[j - 1].1 by {
            assert(r[j - 1] == r0[j - 1] || j - 1 == r0.len() - 1);
            if j < r0.len() {
                assert(r[j].0 == r0[j].0);
                assert(r[j - 1].0 == r0[j - 1].0);
                if j - 1 < r0.len() - 1 {
                    assert(r[j - 1] == r0[j - 1]);
                }
            }
        }
    }
}

proof fn lemma_runs_uniform(names: Seq<Seq<char>>)
    ensures
        forall|j: int| 0 <= j < frame_runs(names).len() ==> run_uniform(
            names,
            (#[trigger] frame_runs(names)[j]).0,
            frame_runs(names)[j].1,
        ),
    decreases names.len(),
{
    if names.len() > 0 {
        let front = names.drop_last();
        lemma_runs_uniform(front);
        lemma_runs_shape(front);
        let r0 = frame_runs(front);
        let r = frame_runs(names);
        assert forall|j: int| 0 <= j < r.len() implies run_uniform(names, (#[trigger] r[j]).0, r[j].1) by {
            if j < r0.len() - 1 || (j == r0.len() - 1 && !(names[r0.last().0 as int] == names.last())) {
                assert(r[j] == r0[j]);
                lemma_uniform_prefix(front, names, r0[j].0, r0[j].1);
            } else if j == r0.len() - 1 {
                lemma_uniform_prefix(front, names, r0[j].0, r0[j].1);
                assert forall|i: int| r[j].0 <= i < r[j].0 + r[j].1 implies #[trigger] names[i] == names[r[j].0 as int] by {
                }
            }
        }
    }
}

proof fn lemma_runs_distinct(names: Seq<Seq<char>>)
    ensures
        forall|j: int| 0 < j < frame_runs(names).len() ==> names[(#[trigger] frame_runs(names)[j]).0 as int]
            != names[frame_runs(names)[j - 1].0 as int],
    decreases names.len(),
{
    if names.len() > 0 {
        let front = names.drop_last();
        lemma_runs_distinct(front);
        lemma_runs_shape(front);
        let r0 = frame_runs(front);
        let r = frame_runs(names);
        assert forall|j: int| 0 < j < r.len() implies names[(#[trigger] r[j]).0 as int] != names[r[j - 1].0 as int] by {
            if j < r0.len() {
                assert(r[j].0 == r0[j].0);
                assert(r[j - 1].0 == r0[j - 1].0);
                assert(front[r0[j].0 as int] == names[r0[j].0 as int]);
                assert(front[r0[j - 1].0 as int] == names[r0[j - 1].0 as int]);
            } else {
                assert(r[j - 1] == r0[j - 1]);
            }
        }
    }
}

/// The runs of frame names cut the frames into consecutive groups, from the
/// first frame to the last: each group holds at least one frame, all of one
/// name, and neighbouring groups differ in name.
pub proof fn frame_runs_partition(names: Seq<Seq<char>>)
    ensures
        ({
            let r = frame_runs(names);
            &&& (r.len() == 0 <==> names.len() == 0)
            &&& r.len() > 0 ==> r[0].0 == 0 && r.last().0 + r.last().1 == names.len()
            &&& forall|j: int| 0 <= j < r.len() ==> (#[trigger] r[j]).1 >= 1 && r[j].0 + r[j].1 <= names.len()
            &&& forall|j: int| 0 < j < r.len() ==> (#[trigger] r[j]).0 == r[j - 1].0 + r[j - 1].1
            &&& forall|j: int| 0 <= j < r.len() ==> run_uniform(names, (#[trigger] r[j]).0, r[j].1)
            &&& forall|j: int| 0 < j < r.len() ==> names[(#[trigger] r[j]).0 as int] != names[r[j - 1].0 as int]
        }),
{
    lemma_runs_shape(names);
    lemma_runs_uniform(names);
    lemma_runs_distinct(names);
}

/// The display names of frames.
pub open spec fn frame_names(frames: Seq<FrameType>) -> Seq<Seq<char>> {
    frames.map_values(|f: FrameType| display_name_of(f@))
}

/// Groups consecutive frames of equal display name: for each group, the
/// index of its first frame and the number of frames in it.
pub fn group_frame_tags(frames: &Vec<FrameType>) -> (res: Vec<(usize, usize)>)
    ensures
        res@.len() == frame_runs(frame_names(frames@)).len(),
        forall|j: int| 0 <= j < res@.len() ==> res@[j].0 == (#[trigger] frame_runs(frame_names(frames@))[j]).0
            && res@[j].1 == frame_runs(frame_names(frames@))[j].1,
{
    let ghost names = frame_names(frames@);
    let mut res: Vec<(usize, usize)> = Vec::new();
    let mut last_name: Vec<char> = Vec::new();
    let mut i: usize = 0;
    while i < frames.len()
        invariant
            i <= frames@.len(),
            names == frame_names(frames@),
            res@.len() == frame_runs(names.take(i as int)).len(),
            forall|j: int| 0 <= j < res@.len() ==> res@[j].0 == (#[trigger] frame_runs(names.take(i as int))[j]).0
                && res@[j].1 == frame_runs(names.take(i as int))[j].1,
            forall|j: int| 0 <= j < res@.len() ==> #[trigger] res@[j].0 < i && res@[j].1 <= i,
            res@.len() > 0 ==> last_name@ == names[res@.last().0 as int],
        decreases frames@.len() - i,
    {
        let name = chars_of(frames[i].display_name().as_str());
        let ghost r = frame_runs(names.take(i as int));
        proof {
            assert(names.take(i + 1).drop_last() =~= names.take(i as int));
            assert(names.take(i + 1).last() == name@);
            if r.len() > 0 {
                assert(names.take(i + 1)[r.last().0 as int] == names[r.last().0 as int]);
            }
        }
        let n = res.len();
        if n > 0 && chars_eq(&last_name, &name) {
            let (first, count) = res[n - 1];
            res.set(n - 1, (first, count + 1));
        } else {
            res.push((i, 1));
            last_name = name;
        }
        i = i + 1;
    }
    proof {
        assert(names.take(i as int) =~= names);
    }
    res
}

/// The text of a frame tag: the display name, followed by ` x` and the count
/// where the group holds more than one frame.
pub fn frame_tag_text(frame: &FrameType, count: usize) -> (res: String)
    ensures
        res@ == if count > 1 {
            display_name_of(frame@) + " x"@ + decimal(count as nat)
        } else {
            display_name_of(frame@)
        },
{
    let name = frame.display_name();
    if count > 1 {
        let mut v = chars_of(name.as_str());
        let x = chars_of(" x");
        extend_chars(&mut v, &x);
        let d = u64_to_decimal(count as u64);
        extend_chars(&mut v, &d);
        proof {
            assert(v@ =~= display_name_of(frame@) + " x"@ + decimal(count as nat));
        }
        string_from_chars(v)
    } else {
        name
    }
}

} // verus!
