//! Links the packets of a trace: which packet was acknowledged or lost
//! where, which arrived out of order, and the congestion and ECN periods.
use crate::model::{AckedRanges, EcnState, Event, EventData, PacketHeader, PacketType, QlogData, QuicFrame};
use crate::table::{PacketKey, PacketTable};
use crate::text::{owned, str_is, to_lowercase, unicode_lower};
use std::collections::HashMap;
use vstd::prelude::*;

verus! {

broadcast use vstd::std_specs::hash::group_hash_axioms;

/// At most this many reorderings are recorded.
pub const MAX_REORDERINGS: usize = 1000;

/// The congestion controller's state.
#[derive(Debug, Clone, Copy, PartialEq, Eq, Structural)]
pub enum CongestionState {
    SlowStart,
    CongestionAvoidance,
    Recovery,
    ApplicationLimited,
    Unknown,
}

/// The state that a lower-cased state name stands for.
pub open spec fn congestion_state_of_lower(s: Seq<char>) -> CongestionState {
    if s == "slow_start"@ || s == "slowstart"@ {
        CongestionState::SlowStart
    } else if s == "congestion_avoidance"@ || s == "congestionavoidance"@ {
        CongestionState::CongestionAvoidance
    } else if s == "recovery"@ {
        CongestionState::Recovery
    } else if s == "application_limited"@ || s == "applicationlimited"@ {
        CongestionState::ApplicationLimited
    } else {
        CongestionState::Unknown
    }
}

/// The state that a state name stands for, whatever the case of its letters.
pub open spec fn congestion_state_of(s: Seq<char>) -> CongestionState {
    congestion_state_of_lower(unicode_lower(s))
}

/// The display name of a congestion state.
pub open spec fn congestion_state_name(s: CongestionState) -> Seq<char> {
    match s {
        CongestionState::SlowStart => "Slow Start"@,
        CongestionState::CongestionAvoidance => "Congestion Avoidance"@,
        CongestionState::Recovery => "Recovery"@,
        CongestionState::ApplicationLimited => "App Limited"@,
        CongestionState::Unknown => "Unknown"@,
    }
}

impl CongestionState {
    /// Reads a state name, ignoring the case of its letters; names it does
    /// not know give `Unknown`.
    pub fn from_str(s: &str) -> (res: Self)
        ensures
            res == congestion_state_of(s@),
            unicode_lower(s@) == "application_limited"@ || unicode_lower(s@) == "applicationlimited"@ ==> res
                == CongestionState::ApplicationLimited,
            unicode_lower(s@) == "slow_start"@ || unicode_lower(s@) == "slowstart"@ ==> res == CongestionState::SlowStart,
            unicode_lower(s@) == "congestion_avoidance"@ || unicode_lower(s@) == "congestionavoidance"@ ==> res
                == CongestionState::CongestionAvoidance,
    {
        proof {
            state_names_read_both_spellings(s@);
        }
        let lower = to_lowercase(s);
        let l = lower.as_str();
        if str_is(l, "slow_start") || str_is(l, "slowstart") {
            CongestionState::SlowStart
        } else if str_is(l, "congestion_avoidance") || str_is(l, "congestionavoidance") {
            CongestionState::CongestionAvoidance
        } else if str_is(l, "recovery") {
            CongestionState::Recovery
        } else if str_is(l, "application_limited") || str_is(l, "applicationlimited") {
            CongestionState::ApplicationLimited
        } else {
            CongestionState::Unknown
        }
    }

    /// The display name of the state.
    pub fn name(&self) -> (res: &'static str)
        ensures
            res@ == congestion_state_name(*self),
    {
        match self {
            CongestionState::SlowStart => "Slow Start",
            CongestionState::CongestionAvoidance => "Congestion Avoidance",
            CongestionState::Recovery => "Recovery",
            CongestionState::ApplicationLimited => "App Limited",
            CongestionState::Unknown => "Unknown",
        }
    }
}

/// The display name of an ECN state.
pub open spec fn ecn_state_name(s: EcnState) -> Seq<char> {
    match s {
        EcnState::Testing => "ECN Testing"@,
        EcnState::Capable => "ECN Capable"@,
        EcnState::Failed => "ECN Failed"@,
        EcnState::Unknown => "ECN Unknown"@,
    }
}

/// What is known of a sent packet. Times are those of the events named.
#[derive(Debug, Clone, Copy, PartialEq, Eq, Structural)]
pub struct SentPacketInfo {
    /// The event that sent the packet.
    pub event_idx: usize,
    /// The first event that acknowledged the packet.
    pub ack_event_idx: Option<usize>,
    /// The last event that declared the packet lost.
    pub loss_event_idx: Option<usize>,
}

/// A received packet whose number is below one received before it in the
/// same path and packet number space.
#[derive(Debug, Clone, Copy, PartialEq, Eq, Structural)]
pub struct ReorderEvent {
    /// The event that received the packet.
    pub event_idx: usize,
}

/// A stretch of the trace spent in one congestion state, from the event
/// that entered it to the event that left it (or the last event).
#[derive(Debug, Clone, Copy, PartialEq, Eq, Structural)]
pub struct CongestionPeriod {
    pub state: CongestionState,
    pub start_event: usize,
    pub end_event: usize,
}

/// A stretch of the trace spent in one ECN state.
#[derive(Debug, Clone, Copy, PartialEq, Eq, Structural)]
pub struct EcnPeriod {
    pub state: EcnState,
    pub start_event: usize,
    pub end_event: usize,
}

impl EcnPeriod {
    /// The display name of the period's state.
    pub fn name(&self) -> (res: &'static str)
        ensures
            res@ == ecn_state_name(self.state),
    {
        match self.state {
            EcnState::Testing => "ECN Testing",
            EcnState::Capable => "ECN Capable",
            EcnState::Failed => "ECN Failed",
            EcnState::Unknown => "ECN Unknown",
        }
    }
}

/// The key of a packet header, with an absent path taken as path 0.
pub open spec fn header_key(h: PacketHeader, pn: u64) -> PacketKey {
    PacketKey {
        path_id: match h.path_id {
            Some(p) => p,
            None => 0,
        },
        packet_type: h.packet_type,
        packet_number: pn,
    }
}

/// The key of the packet that an event sends, if it sends a numbered packet.
pub open spec fn sent_key(e: Event) -> Option<PacketKey> {
    match e.data {
        EventData::PacketSent(p) => match p.header.packet_number {
            Some(pn) => Some(header_key(p.header, pn)),
            None => None,
        },
        _ => None,
    }
}

/// The key of the packet that an event declares lost, if it names one.
pub open spec fn loss_key(e: Event) -> Option<PacketKey> {
    match e.data {
        EventData::PacketLost { header: Some(h) } => match h.packet_number {
            Some(pn) => Some(header_key(h, pn)),
            None => None,
        },
        _ => None,
    }
}

/// The last of the first `n` events that sends packet `k`.
pub open spec fn last_sent(events: Seq<Event>, n: nat, k: PacketKey) -> Option<nat>
    decreases n,
{
    if n == 0 {
        None
    } else if sent_key(events[n - 1]) == Some(k) {
        Some((n - 1) as nat)
    } else {
        last_sent(events, (n - 1) as nat, k)
    }
}

/// The last of the first `n` events that declares packet `k` lost.
pub open spec fn last_loss(events: Seq<Event>, n: nat, k: PacketKey) -> Option<nat>
    decreases n,
{
    if n == 0 {
        None
    } else if loss_key(events[n - 1]) == Some(k) {
        Some((n - 1) as nat)
    } else {
        last_loss(events, (n - 1) as nat, k)
    }
}

/// The packets that the trace sends.
pub open spec fn sent_set(events: Seq<Event>) -> Set<PacketKey> {
    Set::new(|k: PacketKey| last_sent(events, events.len(), k) is Some)
}

/// The packet number spaces in the order in which an acknowledged packet
/// number is looked up.
pub open spec fn search_space(i: nat) -> PacketType {
    if i == 0 {
        PacketType::OneRtt
    } else if i == 1 {
        PacketType::Initial
    } else if i == 2 {
        PacketType::Handshake
    } else {
        PacketType::ZeroRtt
    }
}

/// The `s`-th candidate for packet number `pn`: spaces in search order,
/// paths 0 to 255 within each.
pub open spec fn search_key(pn: u64, s: nat) -> PacketKey {
    PacketKey { path_id: (s % 256) as u64, packet_type: search_space(s / 256), packet_number: pn }
}

/// The first candidate from the `s`-th on that is among `sent`.
pub open spec fn first_found(sent: Set<PacketKey>, pn: u64, s: nat) -> Option<PacketKey>
    decreases 1024 - s,
{
    if s >= 1024 {
        None
    } else if sent.contains(search_key(pn, s)) {
        Some(search_key(pn, s))
    } else {
        first_found(sent, pn, s + 1)
    }
}

/// The sent packet that an acknowledgement of `pn` without path or space refers to.
pub open spec fn resolve_ack(sent: Set<PacketKey>, pn: u64) -> Option<PacketKey> {
    first_found(sent, pn, 0)
}

/// The packets that a list of acknowledged numbers without path or space refers to.
pub open spec fn resolved_keys(sent: Set<PacketKey>, pns: Seq<u64>) -> Seq<PacketKey>
    decreases pns.len(),
{
    if pns.len() == 0 {
        Seq::empty()
    } else {
        let rest = resolved_keys(sent, pns.drop_last());
        match resolve_ack(sent, pns.last()) {
            Some(k) => rest.push(k),
            None => rest,
        }
    }
}

/// The packet numbers from `first` to `last`, both included.
pub open spec fn range_numbers(first: u64, last: u64) -> Seq<u64> {
    if first > last {
        Seq::empty()
    } else {
        Seq::new((last - first + 1) as nat, |i: int| (first + i) as u64)
    }
}

/// The numbers of a list of groups, group after group.
pub open spec fn flatten_groups(groups: Seq<Vec<u64>>) -> Seq<u64>
    decreases groups.len(),
{
    if groups.len() == 0 {
        Seq::empty()
    } else {
        flatten_groups(groups.drop_last()) + groups.last()@
    }
}

/// The numbers of a list of inclusive ranges, range after range.
pub open spec fn flatten_ranges(ranges: Seq<(u64, u64)>) -> Seq<u64>
    decreases ranges.len(),
{
    if ranges.len() == 0 {
        Seq::empty()
    } else {
        flatten_ranges(ranges.drop_last()) + range_numbers(ranges.last().0, ranges.last().1)
    }
}

/// The packet numbers that acknowledgement ranges cover, in order.
pub open spec fn acked_numbers(r: AckedRanges) -> Seq<u64> {
    match r {
        AckedRanges::Single(groups) => flatten_groups(groups@),
        AckedRanges::Double(ranges) => flatten_ranges(ranges@),
    }
}

/// The packet numbers that the ACK frames among `frames` cover, in order.
pub open spec fn frames_acked_numbers(frames: Seq<QuicFrame>) -> Seq<u64>
    decreases frames.len(),
{
    if frames.len() == 0 {
        Seq::empty()
    } else {
        frames_acked_numbers(frames.drop_last()) + match frames.last() {
            QuicFrame::Ack { acked_ranges: Some(r) } => acked_numbers(r),
            _ => Seq::empty(),
        }
    }
}

/// The sent packets among the numbers `pns` of one path and space.
pub open spec fn space_keys(sent: Set<PacketKey>, path_id: u64, t: PacketType, pns: Seq<u64>) -> Seq<
    PacketKey,
>
    decreases pns.len(),
{
    if pns.len() == 0 {
        Seq::empty()
    } else {
        let rest = space_keys(sent, path_id, t, pns.drop_last());
        let k = PacketKey { path_id, packet_type: t, packet_number: pns.last() };
        if sent.contains(k) {
            rest.push(k)
        } else {
            rest
        }
    }
}

/// The sent packets that an acknowledgement event names.
pub open spec fn acked_by_summary(sent: Set<PacketKey>, e: Event) -> Seq<PacketKey> {
    match e.data {
        EventData::PacketsAcked { packet_numbers: Some(pns) } => resolved_keys(sent, pns@),
        _ => Seq::empty(),
    }
}

/// The sent packets that the ACK frames of a received packet name; ACK frames
/// acknowledge packets of their own path and space.
pub open spec fn acked_by_frames(sent: Set<PacketKey>, e: Event) -> Seq<PacketKey> {
    match e.data {
        EventData::PacketReceived(p) => match p.frames {
            Some(frames) => space_keys(
                sent,
                header_key(p.header, 0).path_id,
                p.header.packet_type,
                frames_acked_numbers(frames@),
            ),
            None => Seq::empty(),
        },
        _ => Seq::empty(),
    }
}

/// The first of the first `n` events whose acknowledgement summary names `k`.
pub open spec fn first_summary_ack(sent: Set<PacketKey>, events: Seq<Event>, n: nat, k: PacketKey) -> Option<
    nat,
>
    decreases n,
{
    if n == 0 {
        None
    } else {
        match first_summary_ack(sent, events, (n - 1) as nat, k) {
            Some(j) => Some(j),
            None => if acked_by_summary(sent, events[n - 1]).contains(k) {
                Some((n - 1) as nat)
            } else {
                None
            },
        }
    }
}

/// The first of the first `n` events whose ACK frames name `k`.
pub open spec fn first_frame_ack(sent: Set<PacketKey>, events: Seq<Event>, n: nat, k: PacketKey) -> Option<
    nat,
>
    decreases n,
{
    if n == 0 {
        None
    } else {
        match first_frame_ack(sent, events, (n - 1) as nat, k) {
            Some(j) => Some(j),
            None => if acked_by_frames(sent, events[n - 1]).contains(k) {
                Some((n - 1) as nat)
            } else {
                None
            },
        }
    }
}

/// The event that acknowledges packet `k`: acknowledgement summaries are
/// read first, in trace order, then the ACK frames of received packets.
pub open spec fn ack_event(events: Seq<Event>, k: PacketKey) -> Option<nat> {
    let sent = sent_set(events);
    match first_summary_ack(sent, events, events.len(), k) {
        Some(j) => Some(j),
        None => first_frame_ack(sent, events, events.len(), k),
    }
}

/// Converts an index that a natural number gives to `usize`.
pub open spec fn opt_usize(o: Option<nat>) -> Option<usize> {
    match o {
        Some(n) => Some(n as usize),
        None => None,
    }
}

/// What the trace tells of sent packet `k`.
pub open spec fn sent_info(events: Seq<Event>, k: PacketKey) -> SentPacketInfo {
    SentPacketInfo {
        event_idx: last_sent(events, events.len(), k).unwrap() as usize,
        ack_event_idx: opt_usize(ack_event(events, k)),
        loss_event_idx: opt_usize(last_loss(events, events.len(), k)),
    }
}


/// The key of the packet that an event sends, if it sends a numbered packet.
fn sent_key_of(e: &Event) -> (res: Option<PacketKey>)
    ensures
        res == sent_key(*e),
{
    match &e.data {
        EventData::PacketSent(p) => match p.header.packet_number {
            Some(pn) => Some(key_of(&p.header, pn)),
            None => None,
        },
        _ => None,
    }
}

/// The key of the packet that an event declares lost, if it names one.
fn loss_key_of(e: &Event) -> (res: Option<PacketKey>)
    ensures
        res == loss_key(*e),
{
    match &e.data {
        EventData::PacketLost { header: Some(h) } => match h.packet_number {
            Some(pn) => Some(key_of(h, pn)),
            None => None,
        },
        _ => None,
    }
}

fn key_of(h: &PacketHeader, pn: u64) -> (res: PacketKey)
    ensures
        res == header_key(*h, pn),
{
    PacketKey {
        path_id: match h.path_id {
            Some(p) => p,
            None => 0,
        },
        packet_type: h.packet_type,
        packet_number: pn,
    }
}

/// The sent packets of a trace, and the packet that each sending event sends.
fn collect_sent(events: &Vec<Event>) -> (res: (PacketTable<SentPacketInfo>, HashMap<usize, PacketKey>))
    ensures
        forall|k: PacketKey| #[trigger] res.0@.contains_key(k) <==> last_sent(events@, events@.len(), k) is Some,
        forall|k: PacketKey| #[trigger] res.0@.contains_key(k) ==> res.0@[k] == (SentPacketInfo {
            event_idx: last_sent(events@, events@.len(), k).unwrap() as usize,
            ack_event_idx: None,
            loss_event_idx: None,
        }),
        forall|j: usize| #[trigger] res.1@.contains_key(j) <==> j < events@.len() && sent_key(events@[j as int]) is Some,
        forall|j: usize| #[trigger] res.1@.contains_key(j) ==> res.1@[j] == sent_key(events@[j as int]).unwrap(),
{
    let mut table: PacketTable<SentPacketInfo> = PacketTable::new();
    let mut by_event: HashMap<usize, PacketKey> = HashMap::new();
    let mut i: usize = 0;
    while i < events.len()
        invariant
            i <= events@.len(),
            table@.dom().len() <= i,
            forall|k: PacketKey| #[trigger] table@.contains_key(k) <==> last_sent(events@, i as nat, k) is Some,
            forall|k: PacketKey| #[trigger] table@.contains_key(k) ==> table@[k] == (SentPacketInfo {
                event_idx: last_sent(events@, i as nat, k).unwrap() as usize,
                ack_event_idx: None,
                loss_event_idx: None,
            }),
            forall|j: usize| #[trigger] by_event@.contains_key(j) <==> j < i && sent_key(events@[j as int]) is Some,
            forall|j: usize| #[trigger] by_event@.contains_key(j) ==> by_event@[j] == sent_key(events@[j as int]).unwrap(),
        decreases events@.len() - i,
    {
        let ghost before = table@;
        if let Some(k) = sent_key_of(&events[i]) {
            table.insert(k, SentPacketInfo { event_idx: i, ack_event_idx: None, loss_event_idx: None });
            by_event.insert(i, k);
        }
        proof {
            assert forall|q: PacketKey| #[trigger] table@.contains_key(q) <==> last_sent(events@, (i + 1) as nat, q) is Some by {
                assert(last_sent(events@, (i + 1) as nat, q) == if sent_key(events@[i as int]) == Some(q) {
                    Some(i as nat)
                } else {
                    last_sent(events@, i as nat, q)
                });
            }
            assert forall|q: PacketKey| #[trigger] table@.contains_key(q) implies table@[q] == (SentPacketInfo {
                event_idx: last_sent(events@, (i + 1) as nat, q).unwrap() as usize,
                ack_event_idx: None,
                loss_event_idx: None,
            }) by {
                assert(last_sent(events@, (i + 1) as nat, q) == if sent_key(events@[i as int]) == Some(q) {
                    Some(i as nat)
                } else {
                    last_sent(events@, i as nat, q)
                });
            }
        }
        i = i + 1;
    }
    (table, by_event)
}

/// The lost packets of a trace, and the packet that each loss event names;
/// links each lost packet that was sent to its last loss event.
fn collect_losses(events: &Vec<Event>, sent: &mut PacketTable<SentPacketInfo>) -> (res: (PacketTable<usize>, HashMap<usize, PacketKey>))
    requires
        forall|k: PacketKey| #[trigger] old(sent)@.contains_key(k) ==> old(sent)@[k].loss_event_idx is None,
    ensures
        final(sent)@.dom() == old(sent)@.dom(),
        forall|k: PacketKey| #[trigger] final(sent)@.contains_key(k) ==> final(sent)@[k] == (SentPacketInfo {
            loss_event_idx: opt_usize(last_loss(events@, events@.len(), k)),
            ..old(sent)@[k]
        }),
        forall|k: PacketKey| #[trigger] res.0@.contains_key(k) <==> last_loss(events@, events@.len(), k) is Some,
        forall|k: PacketKey| #[trigger] res.0@.contains_key(k) ==> res.0@[k] == last_loss(events@, events@.len(), k).unwrap() as usize,
        forall|j: usize| #[trigger] res.1@.contains_key(j) <==> j < events@.len() && loss_key(events@[j as int]) is Some,
        forall|j: usize| #[trigger] res.1@.contains_key(j) ==> res.1@[j] == loss_key(events@[j as int]).unwrap(),
{
    let mut lost: PacketTable<usize> = PacketTable::new();
    let mut by_event: HashMap<usize, PacketKey> = HashMap::new();
    let mut i: usize = 0;
    while i < events.len()
        invariant
            i <= events@.len(),
            sent@.dom() == old(sent)@.dom(),
            forall|k: PacketKey| #[trigger] sent@.contains_key(k) ==> sent@[k] == (SentPacketInfo {
                loss_event_idx: opt_usize(last_loss(events@, i as nat, k)),
                ..old(sent)@[k]
            }),
            lost@.dom().len() <= i,
            forall|k: PacketKey| #[trigger] lost@.contains_key(k) <==> last_loss(events@, i as nat, k) is Some,
            forall|k: PacketKey| #[trigger] lost@.contains_key(k) ==> lost@[k] == last_loss(events@, i as nat, k).unwrap() as usize,
            forall|j: usize| #[trigger] by_event@.contains_key(j) <==> j < i && loss_key(events@[j as int]) is Some,
            forall|j: usize| #[trigger] by_event@.contains_key(j) ==> by_event@[j] == loss_key(events@[j as int]).unwrap(),
        decreases events@.len() - i,
    {
        if let Some(k) = loss_key_of(&events[i]) {
            lost.insert(k, i);
            by_event.insert(i, k);
            match sent.get(&k) {
                Some(info) => {
                    let updated = SentPacketInfo { loss_event_idx: Some(i), ..*info };
                    proof {
                        assert(sent@.dom().insert(k) =~= sent@.dom());
                    }
                    sent.insert(k, updated);
                },
                None => {},
            }
        }
        proof {
            assert forall|q: PacketKey| #![trigger last_loss(events@, (i + 1) as nat, q)]
                last_loss(events@, (i + 1) as nat, q) == if loss_key(events@[i as int]) == Some(q) {
                    Some(i as nat)
                } else {
                    last_loss(events@, i as nat, q)
                } by {}
            assert(sent@.dom() =~= old(sent)@.dom());
        }
        i = i + 1;
    }
    (lost, by_event)
}


/// The acknowledging event for `k` once the event at `j` has named `keys`,
/// where `first` is the acknowledging event found before it.
pub open spec fn ack_so_far(first: Option<nat>, keys: Seq<PacketKey>, j: nat, k: PacketKey) -> Option<usize> {
    match first {
        Some(x) => Some(x as usize),
        None => if keys.contains(k) {
            Some(j as usize)
        } else {
            None
        },
    }
}

/// The first acknowledging event for `k` among the first `n` events, reading
/// all summaries before any ACK frame.
pub open spec fn first_ack_through(sent: Set<PacketKey>, events: Seq<Event>, n: nat, k: PacketKey) -> Option<nat> {
    match first_summary_ack(sent, events, events.len(), k) {
        Some(x) => Some(x),
        None => first_frame_ack(sent, events, n, k),
    }
}

/// The sent packet that an acknowledged number without path or space refers to.
fn resolve(sent: &PacketTable<SentPacketInfo>, pn: u64) -> (res: Option<PacketKey>)
    ensures
        res == resolve_ack(sent@.dom(), pn),
{
    let mut s: usize = 0;
    while s < 1024
        invariant
            s <= 1024,
            first_found(sent@.dom(), pn, 0) == first_found(sent@.dom(), pn, s as nat),
        decreases 1024 - s,
    {
        let q = s / 256;
        let t = if q == 0 {
            PacketType::OneRtt
        } else if q == 1 {
            PacketType::Initial
        } else if q == 2 {
            PacketType::Handshake
        } else {
            PacketType::ZeroRtt
        };
        let k = PacketKey { path_id: (s % 256) as u64, packet_type: t, packet_number: pn };
        proof {
            assert(k == search_key(pn, s as nat));
        }
        if sent.contains_key(&k) {
            return Some(k);
        }
        s = s + 1;
    }
    None
}

/// Records that the event at `j` acknowledges `k`, unless an earlier event did.
fn mark_acked(sent: &mut PacketTable<SentPacketInfo>, k: PacketKey, j: usize)
    requires
        old(sent)@.contains_key(k),
    ensures
        final(sent)@.dom() == old(sent)@.dom(),
        final(sent)@[k] == (SentPacketInfo {
            ack_event_idx: match old(sent)@[k].ack_event_idx {
                Some(a) => Some(a),
                None => Some(j),
            },
            ..old(sent)@[k]
        }),
        forall|q: PacketKey| q != k ==> #[trigger] final(sent)@[q] == old(sent)@[q],
{
    match sent.get(&k) {
        Some(info) => {
            if info.ack_event_idx.is_none() {
                let updated = SentPacketInfo { ack_event_idx: Some(j), ..*info };
                sent.insert(k, updated);
                proof {
                    assert(sent@.dom() =~= old(sent)@.dom());
                }
            }
        },
        None => {},
    }
}

/// Links sent packets to the acknowledgement summaries that name them.
fn link_summary_acks(
    events: &Vec<Event>,
    sent: &mut PacketTable<SentPacketInfo>,
    acks: &mut HashMap<usize, Vec<PacketKey>>,
)
    requires
        forall|k: PacketKey| #[trigger] old(sent)@.contains_key(k) ==> old(sent)@[k].ack_event_idx is None,
        old(acks)@ == Map::<usize, Vec<PacketKey>>::empty(),
    ensures
        final(sent)@.dom() == old(sent)@.dom(),
        forall|k: PacketKey| #[trigger] final(sent)@.contains_key(k) ==> final(sent)@[k] == (SentPacketInfo {
            ack_event_idx: opt_usize(first_summary_ack(old(sent)@.dom(), events@, events@.len(), k)),
            ..old(sent)@[k]
        }),
        forall|j: usize| #[trigger] final(acks)@.contains_key(j) <==> j < events@.len()
            && acked_by_summary(old(sent)@.dom(), events@[j as int]).len() > 0,
        forall|j: usize| #[trigger] final(acks)@.contains_key(j) ==> final(acks)@[j]@
            == acked_by_summary(old(sent)@.dom(), events@[j as int]),
{
    let ghost dom = old(sent)@.dom();
    let mut j: usize = 0;
    while j < events.len()
        invariant
            j <= events@.len(),
            sent@.dom() == dom,
            dom == old(sent)@.dom(),
            forall|k: PacketKey| #[trigger] sent@.contains_key(k) ==> sent@[k] == (SentPacketInfo {
                ack_event_idx: opt_usize(first_summary_ack(dom, events@, j as nat, k)),
                ..old(sent)@[k]
            }),
            forall|i: usize| #[trigger] acks@.contains_key(i) <==> i < j
                && acked_by_summary(dom, events@[i as int]).len() > 0,
            forall|i: usize| #[trigger] acks@.contains_key(i) ==> acks@[i]@ == acked_by_summary(dom, events@[i as int]),
        decreases events@.len() - j,
    {
        let ghost before = sent@;
        let mut keys: Vec<PacketKey> = Vec::new();
        match &events[j].data {
            EventData::PacketsAcked { packet_numbers: Some(pns) } => {
                let mut m: usize = 0;
                while m < pns.len()
                    invariant
                        m <= pns@.len(),
                        sent@.dom() == dom,
                        keys@ == resolved_keys(dom, pns@.take(m as int)),
                        forall|q: PacketKey| #[trigger] keys@.contains(q) ==> dom.contains(q),
                        forall|k: PacketKey| #[trigger] sent@.contains_key(k) ==> sent@[k] == (SentPacketInfo {
                            ack_event_idx: ack_so_far(first_summary_ack(dom, events@, j as nat, k), keys@, j as nat, k),
                            ..old(sent)@[k]
                        }),
                    decreases pns@.len() - m,
                {
                    let ghost keys_before = keys@;
                    let r = resolve(sent, pns[m]);
                    proof {
                        assert(pns@.take(m + 1).drop_last() =~= pns@.take(m as int));
                    }
                    if let Some(k) = r {
                        proof {
                            lemma_first_found_in(dom, pns[m as int], 0);
                        }
                        mark_acked(sent, k, j);
                        keys.push(k);
                        proof {
                            assert forall|q: PacketKey| #[trigger] keys@.contains(q) <==> keys_before.contains(q) || q == k by {
                                if keys@.contains(q) {
                                    let x = choose|x: int| 0 <= x < keys@.len() && keys@[x] == q;
                                    if x < keys_before.len() {
                                        assert(keys_before[x] == q);
                                    }
                                }
                                if keys_before.contains(q) {
                                    let x = choose|x: int| 0 <= x < keys_before.len() && keys_before[x] == q;
                                    assert(keys@[x] == q);
                                }
                                if q == k {
                                    assert(keys@[keys@.len() - 1] == q);
                                }
                            }
                        }
                    }
                    m = m + 1;
                }
                proof {
                    assert(pns@.take(pns@.len() as int) =~= pns@);
                }
                if keys.len() > 0 {
                    acks.insert(j, keys);
                }
            },
            _ => {},
        }
        proof {
            assert forall|k: PacketKey| #[trigger] sent@.contains_key(k) implies sent@[k] == (SentPacketInfo {
                ack_event_idx: opt_usize(first_summary_ack(dom, events@, (j + 1) as nat, k)),
                ..old(sent)@[k]
            }) by {
                assert(first_summary_ack(dom, events@, (j + 1) as nat, k) == match first_summary_ack(dom, events@, j as nat, k) {
                    Some(x) => Some(x),
                    None => if acked_by_summary(dom, events@[j as int]).contains(k) {
                        Some(j as nat)
                    } else {
                        None
                    },
                });
            }
        }
        j = j + 1;
    }
}

proof fn lemma_first_found_in(sent: Set<PacketKey>, pn: u64, s: nat)
    ensures
        first_found(sent, pn, s) matches Some(k) ==> sent.contains(k),
    decreases 1024 - s,
{
    if s < 1024 && !sent.contains(search_key(pn, s)) {
        lemma_first_found_in(sent, pn, s + 1);
    }
}


/// The state of the frame scan within one received packet.
pub open spec fn frame_scan_ok(
    sent: &PacketTable<SentPacketInfo>,
    base: Map<PacketKey, SentPacketInfo>,
    dom: Set<PacketKey>,
    events: Seq<Event>,
    j: nat,
    path_id: u64,
    t: PacketType,
    consumed: Seq<u64>,
    keys: Seq<PacketKey>,
) -> bool {
    &&& sent@.dom() == dom
    &&& keys == space_keys(dom, path_id, t, consumed)
    &&& forall|q: PacketKey| #[trigger] keys.contains(q) ==> dom.contains(q)
    &&& forall|k: PacketKey| #[trigger] sent@.contains_key(k) ==> sent@[k] == (SentPacketInfo {
        ack_event_idx: ack_so_far(first_ack_through(dom, events, j, k), keys, j, k),
        ..base[k]
    })
}

/// Notes acknowledged number `pn` of a received packet of `path_id` and space `t`.
fn note_frame_ack(
    sent: &mut PacketTable<SentPacketInfo>,
    keys: &mut Vec<PacketKey>,
    path_id: u64,
    t: PacketType,
    pn: u64,
    j: usize,
    Ghost(base): Ghost<Map<PacketKey, SentPacketInfo>>,
    Ghost(dom): Ghost<Set<PacketKey>>,
    Ghost(events): Ghost<Seq<Event>>,
    Ghost(consumed): Ghost<Seq<u64>>,
)
    requires
        frame_scan_ok(old(sent), base, dom, events, j as nat, path_id, t, consumed, old(keys)@),
    ensures
        frame_scan_ok(final(sent), base, dom, events, j as nat, path_id, t, consumed.push(pn), final(keys)@),
{
    let k = PacketKey { path_id, packet_type: t, packet_number: pn };
    let ghost keys_before = keys@;
    proof {
        assert(consumed.push(pn).drop_last() =~= consumed);
    }
    if sent.contains_key(&k) {
        mark_acked(sent, k, j);
        keys.push(k);
        proof {
            assert forall|q: PacketKey| #[trigger] keys@.contains(q) <==> keys_before.contains(q) || q == k by {
                if keys@.contains(q) {
                    let x = choose|x: int| 0 <= x < keys@.len() && keys@[x] == q;
                    if x < keys_before.len() {
                        assert(keys_before[x] == q);
                    }
                }
                if keys_before.contains(q) {
                    let x = choose|x: int| 0 <= x < keys_before.len() && keys_before[x] == q;
                    assert(keys@[x] == q);
                }
                if q == k {
                    assert(keys@[keys@.len() - 1] == q);
                }
            }
        }
    }
}

/// Links sent packets to the ACK frames of received packets that name them.
fn link_frame_acks(
    events: &Vec<Event>,
    sent: &mut PacketTable<SentPacketInfo>,
    acks: &mut HashMap<usize, Vec<PacketKey>>,
    Ghost(dom): Ghost<Set<PacketKey>>,
)
    requires
        old(sent)@.dom() == dom,
        forall|k: PacketKey| #[trigger] old(sent)@.contains_key(k) ==> old(sent)@[k].ack_event_idx
            == opt_usize(first_summary_ack(dom, events@, events@.len(), k)),
        forall|i: usize| #[trigger] old(acks)@.contains_key(i) ==> acked_by_frames(dom, events@[i as int]).len() == 0,
    ensures
        final(sent)@.dom() == dom,
        forall|k: PacketKey| #[trigger] final(sent)@.contains_key(k) ==> final(sent)@[k] == (SentPacketInfo {
            ack_event_idx: opt_usize(first_ack_through(dom, events@, events@.len(), k)),
            ..old(sent)@[k]
        }),
        forall|i: usize| #[trigger] final(acks)@.contains_key(i) <==> old(acks)@.contains_key(i)
            || (i < events@.len() && acked_by_frames(dom, events@[i as int]).len() > 0),
        forall|i: usize| #[trigger] final(acks)@.contains_key(i) ==> final(acks)@[i] == if old(acks)@.contains_key(i) {
            old(acks)@[i]
        } else {
            final(acks)@[i]
        },
        forall|i: usize| #[trigger] final(acks)@.contains_key(i) && !old(acks)@.contains_key(i) ==> final(acks)@[i]@
            == acked_by_frames(dom, events@[i as int]),
{
    let ghost base = old(sent)@;
    let mut j: usize = 0;
    while j < events.len()
        invariant
            j <= events@.len(),
            sent@.dom() == dom,
            base == old(sent)@,
            forall|k: PacketKey| #[trigger] sent@.contains_key(k) ==> sent@[k] == (SentPacketInfo {
                ack_event_idx: opt_usize(first_ack_through(dom, events@, j as nat, k)),
                ..base[k]
            }),
            forall|i: usize| #[trigger] acks@.contains_key(i) <==> old(acks)@.contains_key(i)
                || (i < j && acked_by_frames(dom, events@[i as int]).len() > 0),
            forall|i: usize| #[trigger] old(acks)@.contains_key(i) ==> acks@[i] == old(acks)@[i],
            forall|i: usize| #[trigger] old(acks)@.contains_key(i) ==> acked_by_frames(dom, events@[i as int]).len() == 0,
            forall|i: usize| #[trigger] acks@.contains_key(i) && !old(acks)@.contains_key(i) ==> acks@[i]@
                == acked_by_frames(dom, events@[i as int]),
        decreases events@.len() - j,
    {
        let mut keys: Vec<PacketKey> = Vec::new();
        proof {
            assert forall|k: PacketKey| #[trigger] sent@.contains_key(k) implies sent@[k] == (SentPacketInfo {
                ack_event_idx: ack_so_far(first_ack_through(dom, events@, j as nat, k), keys@, j as nat, k),
                ..base[k]
            }) by {
                match first_ack_through(dom, events@, j as nat, k) {
                    Some(x) => {},
                    None => {},
                }
            }
        }
        match &events[j].data {
            EventData::PacketReceived(p) => {
                match &p.frames {
                    Some(frames) => {
                        let path_id = match p.header.path_id {
                            Some(x) => x,
                            None => 0,
                        };
                        let t = p.header.packet_type;
                        let ghost mut consumed: Seq<u64> = Seq::empty();
                        let mut fi: usize = 0;
                        while fi < frames.len()
                            invariant
                                fi <= frames@.len(),
                                consumed == frames_acked_numbers(frames@.take(fi as int)),
                                frame_scan_ok(sent, base, dom, events@, j as nat, path_id, t, consumed, keys@),
                            decreases frames@.len() - fi,
                        {
                            proof {
                                assert(frames@.take(fi + 1).drop_last() =~= frames@.take(fi as int));
                            }
                            match &frames[fi] {
                                QuicFrame::Ack { acked_ranges: Some(r) } => {
                                    let ghost start = consumed;
                                    match r {
                                        AckedRanges::Single(groups) => {
                                            let mut gi: usize = 0;
                                            while gi < groups.len()
                                                invariant
                                                    gi <= groups@.len(),
                                                    consumed == start + flatten_groups(groups@.take(gi as int)),
                                                    frame_scan_ok(sent, base, dom, events@, j as nat, path_id, t, consumed, keys@),
                                                decreases groups@.len() - gi,
                                            {
                                                let g = &groups[gi];
                                                let ghost gstart = consumed;
                                                let mut xi: usize = 0;
                                                while xi < g.len()
                                                    invariant
                                                        xi <= g@.len(),
                                                        consumed == gstart + g@.take(xi as int),
                                                        frame_scan_ok(sent, base, dom, events@, j as nat, path_id, t, consumed, keys@),
                                                    decreases g@.len() - xi,
                                                {
                                                    note_frame_ack(sent, &mut keys, path_id, t, g[xi], j, Ghost(base), Ghost(dom), Ghost(events@), Ghost(consumed));
                                                    proof {
                                                        assert(g@.take(xi + 1) =~= g@.take(xi as int).push(g@[xi as int]));
                                                        consumed = consumed.push(g@[xi as int]);
                                                    }
                                                    xi = xi + 1;
                                                }
                                                proof {
                                                    assert(g@.take(g@.len() as int) =~= g@);
                                                    assert(groups@.take(gi + 1).drop_last() =~= groups@.take(gi as int));
                                                    assert(groups@.take(gi + 1).last() == groups@[gi as int]);
                                                }
                                                gi = gi + 1;
                                            }
                                            proof {
                                                assert(groups@.take(groups@.len() as int) =~= groups@);
                                            }
                                        },
                                        AckedRanges::Double(ranges) => {
                                            let mut ri: usize = 0;
                                            while ri < ranges.len()
                                                invariant
                                                    ri <= ranges@.len(),
                                                    consumed == start + flatten_ranges(ranges@.take(ri as int)),
                                                    frame_scan_ok(sent, base, dom, events@, j as nat, path_id, t, consumed, keys@),
                                                decreases ranges@.len() - ri,
                                            {
                                                let (a, b) = ranges[ri];
                                                let ghost rstart = consumed;
                                                if a <= b {
                                                    let mut x: u64 = a;
                                                    loop
                                                        invariant_except_break
                                                            a <= x <= b,
                                                            consumed == rstart + range_numbers(a, b).take((x - a) as int),
                                                            frame_scan_ok(sent, base, dom, events@, j as nat, path_id, t, consumed, keys@),
                                                        ensures
                                                            consumed == rstart + range_numbers(a, b),
                                                            frame_scan_ok(sent, base, dom, events@, j as nat, path_id, t, consumed, keys@),
                                                        decreases b - x,
                                                    {
                                                        note_frame_ack(sent, &mut keys, path_id, t, x, j, Ghost(base), Ghost(dom), Ghost(events@), Ghost(consumed));
                                                        proof {
                                                            assert(range_numbers(a, b).take((x - a) + 1) =~= range_numbers(a, b).take((x - a) as int).push(x));
                                                            consumed = consumed.push(x);
                                                        }
                                                        if x == b {
                                                            proof {
                                                                assert(range_numbers(a, b).take((x - a) + 1) =~= range_numbers(a, b));
                                                            }
                                                            break;
                                                        }
                                                        x = x + 1;
                                                    }
                                                } else {
                                                    proof {
                                                        assert(consumed == rstart + range_numbers(a, b));
                                                    }
                                                }
                                                proof {
                                                    assert(ranges@.take(ri + 1).drop_last() =~= ranges@.take(ri as int));
                                                    assert(ranges@.take(ri + 1).last() == ranges@[ri as int]);
                                                }
                                                ri = ri + 1;
                                            }
                                            proof {
                                                assert(ranges@.take(ranges@.len() as int) =~= ranges@);
                                            }
                                        },
                                    }
                                },
                                _ => {},
                            }
                            fi = fi + 1;
                        }
                        proof {
                            assert(frames@.take(frames@.len() as int) =~= frames@);
                        }
                    },
                    None => {},
                }
            },
            _ => {},
        }
        proof {
            assert(keys@ == acked_by_frames(dom, events@[j as int]));
            assert forall|k: PacketKey| #[trigger] sent@.contains_key(k) implies sent@[k] == (SentPacketInfo {
                ack_event_idx: opt_usize(first_ack_through(dom, events@, (j + 1) as nat, k)),
                ..base[k]
            }) by {
                assert(first_frame_ack(dom, events@, (j + 1) as nat, k) == match first_frame_ack(dom, events@, j as nat, k) {
                    Some(x) => Some(x),
                    None => if acked_by_frames(dom, events@[j as int]).contains(k) {
                        Some(j as nat)
                    } else {
                        None
                    },
                });
            }
        }
        if keys.len() > 0 {
            proof {
                if old(acks)@.contains_key(j) {
                    assert(acked_by_frames(dom, events@[j as int]).len() == 0);
                }
            }
            acks.insert(j, keys);
        }
        j = j + 1;
    }
}


/// The first `n` elements of `s`, or all of them where `s` is shorter.
pub open spec fn first_n<T>(s: Seq<T>, n: nat) -> Seq<T> {
    if s.len() <= n {
        s
    } else {
        s.take(n as int)
    }
}

/// The path and space of a received numbered packet (as a key with packet
/// number 0), and its number.
pub open spec fn received_number(e: Event) -> Option<(PacketKey, u64)> {
    match e.data {
        EventData::PacketReceived(p) => match p.header.packet_number {
            Some(pn) => Some((header_key(p.header, 0), pn)),
            None => None,
        },
        _ => None,
    }
}

/// The highest packet number received among the first `n` events on the path
/// and space `space` (0 where there is none).
pub open spec fn max_received(events: Seq<Event>, n: nat, space: PacketKey) -> u64
    decreases n,
{
    if n == 0 {
        0
    } else {
        let m = max_received(events, (n - 1) as nat, space);
        match received_number(events[n - 1]) {
            Some((sk, pn)) => if sk == space && pn > m {
                pn
            } else {
                m
            },
            None => m,
        }
    }
}

/// Whether event `i` receives a packet whose number is below one received
/// before it on the same path and space.
pub open spec fn is_reordered(events: Seq<Event>, i: nat) -> bool {
    match received_number(events[i as int]) {
        Some((sk, pn)) => pn < max_received(events, i, sk),
        None => false,
    }
}

/// The reordered receptions among the first `n` events, in trace order.
pub open spec fn reorder_candidates(events: Seq<Event>, n: nat) -> Seq<usize>
    decreases n,
{
    if n == 0 {
        Seq::empty()
    } else {
        let rest = reorder_candidates(events, (n - 1) as nat);
        if is_reordered(events, (n - 1) as nat) {
            rest.push((n - 1) as usize)
        } else {
            rest
        }
    }
}

/// Whether event `a` comes before event `b` in time, ties going by position.
pub open spec fn time_before(events: Seq<Event>, a: usize, b: usize) -> bool {
    events[a as int].time_key < events[b as int].time_key || (events[a as int].time_key
        == events[b as int].time_key && a < b)
}

/// Whether the events named by `s` are in strict time order.
pub open spec fn sorted_by_time(events: Seq<Event>, s: Seq<usize>) -> bool {
    forall|i: int, j: int| 0 <= i < j < s.len() ==> time_before(events, #[trigger] s[i], #[trigger] s[j])
}

/// The reorderings that are recorded: the first ones of the trace, up to the limit.
pub open spec fn kept_reorderings(events: Seq<Event>) -> Seq<usize> {
    first_n(reorder_candidates(events, events.len()), MAX_REORDERINGS as nat)
}

proof fn lemma_candidates_increasing(events: Seq<Event>, n: nat)
    requires
        n <= usize::MAX,
    ensures
        forall|i: int| 0 <= i < reorder_candidates(events, n).len() ==> #[trigger] reorder_candidates(events, n)[i] < n,
        forall|i: int, j: int| 0 <= i < j < reorder_candidates(events, n).len() ==> #[trigger] reorder_candidates(
            events,
            n,
        )[i] < #[trigger] reorder_candidates(events, n)[j],
    decreases n,
{
    if n > 0 {
        lemma_candidates_increasing(events, (n - 1) as nat);
        let rest = reorder_candidates(events, (n - 1) as nat);
        if is_reordered(events, (n - 1) as nat) {
            assert(reorder_candidates(events, n) == rest.push((n - 1) as usize));
            assert(((n - 1) as usize) as nat == n - 1);
        }
    }
}

/// Inserts event `x`, later in the trace than every event of `sorted`, at its
/// place in time order.
fn insert_by_time(events: &Vec<Event>, sorted: &mut Vec<usize>, x: usize)
    requires
        x < events@.len(),
        sorted_by_time(events@, old(sorted)@),
        forall|i: int| 0 <= i < old(sorted)@.len() ==> #[trigger] old(sorted)@[i] < x,
    ensures
        sorted_by_time(events@, final(sorted)@),
        final(sorted)@.len() == old(sorted)@.len() + 1,
        forall|y: usize| #[trigger] final(sorted)@.contains(y) <==> old(sorted)@.contains(y) || y == x,
{
    let key = events[x].time_key;
    let mut p: usize = 0;
    while p < sorted.len() && events[sorted[p]].time_key <= key
        invariant
            p <= sorted@.len(),
            sorted@ == old(sorted)@,
            forall|i: int| 0 <= i < sorted@.len() ==> (#[trigger] sorted@[i]) < events@.len(),
            forall|i: int| 0 <= i < p ==> events@[#[trigger] sorted@[i] as int].time_key <= key,
        decreases sorted@.len() - p,
    {
        p = p + 1;
    }
    let ghost before = sorted@;
    sorted.insert(p, x);
    proof {
        assert(sorted@ == before.insert(p as int, x));
        assert forall|i: int, j: int| 0 <= i < j < sorted@.len() implies time_before(
            events@,
            #[trigger] sorted@[i],
            #[trigger] sorted@[j],
        ) by {
            if j < p {
                assert(time_before(events@, before[i], before[j]));
            } else if j == p {
                assert(events@[before[i] as int].time_key <= key);
            } else if i < p {
                assert(time_before(events@, before[i], before[j - 1]));
                assert(events@[before[i] as int].time_key <= key);
                if p < before.len() {
                    assert(events@[before[p as int] as int].time_key > key);
                    if j - 1 > p {
                        assert(time_before(events@, before[p as int], before[j - 1]));
                    }
                }
            } else if i == p {
                assert(events@[before[p as int] as int].time_key > key);
                if j - 1 > p {
                    assert(time_before(events@, before[p as int], before[j - 1]));
                }
            } else {
                assert(time_before(events@, before[i - 1], before[j - 1]));
            }
        }
        assert forall|y: usize| #[trigger] sorted@.contains(y) <==> before.contains(y) || y == x by {
            if sorted@.contains(y) {
                let k = choose|k: int| 0 <= k < sorted@.len() && sorted@[k] == y;
                if k < p {
                    assert(before[k] == y);
                } else if k > p {
                    assert(before[k - 1] == y);
                }
            }
            if before.contains(y) {
                let k = choose|k: int| 0 <= k < before.len() && before[k] == y;
                if k < p {
                    assert(sorted@[k] == y);
                } else {
                    assert(sorted@[k + 1] == y);
                }
            }
            if y == x {
                assert(sorted@[p as int] == y);
            }
        }
    }
}

/// The recorded reorderings, in time order.
fn find_reorderings(events: &Vec<Event>) -> (res: Vec<usize>)
    ensures
        sorted_by_time(events@, res@),
        res@.len() == kept_reorderings(events@).len(),
        forall|y: usize| #[trigger] res@.contains(y) <==> kept_reorderings(events@).contains(y),
{
    let mut highest: PacketTable<u64> = PacketTable::new();
    let mut kept: Vec<usize> = Vec::new();
    let mut sorted: Vec<usize> = Vec::new();
    let mut i: usize = 0;
    while i < events.len()
        invariant
            i <= events@.len(),
            highest@.dom().len() <= i,
            forall|sk: PacketKey| sk.packet_number == 0 ==> (if #[trigger] highest@.contains_key(sk) {
                highest@[sk]
            } else {
                0
            }) == max_received(events@, i as nat, sk),
            kept@ == first_n(reorder_candidates(events@, i as nat), MAX_REORDERINGS as nat),
            sorted_by_time(events@, sorted@),
            sorted@.len() == kept@.len(),
            forall|y: usize| #[trigger] sorted@.contains(y) <==> kept@.contains(y),
        decreases events@.len() - i,
    {
        proof {
            lemma_candidates_increasing(events@, i as nat);
        }
        match &events[i].data {
            EventData::PacketReceived(p) => match p.header.packet_number {
                Some(pn) => {
                    let sk = key_of(&p.header, 0);
                    let current: u64 = match highest.get(&sk) {
                        Some(v) => *v,
                        None => 0,
                    };
                    if pn < current && kept.len() < MAX_REORDERINGS {
                        proof {
                            assert forall|q: int| 0 <= q < sorted@.len() implies #[trigger] sorted@[q] < i by {
                                assert(sorted@.contains(sorted@[q]));
                                assert(kept@.contains(sorted@[q]));
                            }
                        }
                        insert_by_time(events, &mut sorted, i);
                        let ghost kb = kept@;
                        kept.push(i);
                        proof {
                            assert forall|y: usize| #[trigger] kept@.contains(y) <==> kb.contains(y) || y == i by {
                                if kept@.contains(y) {
                                    let k = choose|k: int| 0 <= k < kept@.len() && kept@[k] == y;
                                    if k < kb.len() {
                                        assert(kb[k] == y);
                                    }
                                }
                                if kb.contains(y) {
                                    let k = choose|k: int| 0 <= k < kb.len() && kb[k] == y;
                                    assert(kept@[k] == y);
                                }
                                if y == i {
                                    assert(kept@[kb.len() as int] == y);
                                }
                            }
                        }
                    }
                    let top = if pn > current { pn } else { current };
                    highest.insert(sk, top);
                },
                None => {},
            },
            _ => {},
        }
        proof {
            assert forall|sk: PacketKey| sk.packet_number == 0 implies (if #[trigger] highest@.contains_key(sk) {
                highest@[sk]
            } else {
                0
            }) == max_received(events@, (i + 1) as nat, sk) by {
                assert(max_received(events@, (i + 1) as nat, sk) == {
                    let m = max_received(events@, i as nat, sk);
                    match received_number(events@[i as int]) {
                        Some((k, pn)) => if k == sk && pn > m {
                            pn
                        } else {
                            m
                        },
                        None => m,
                    }
                });
            }
            let c = reorder_candidates(events@, i as nat);
            assert(reorder_candidates(events@, (i + 1) as nat) == if is_reordered(events@, i as nat) {
                c.push(i)
            } else {
                c
            });
            if is_reordered(events@, i as nat) && c.len() >= MAX_REORDERINGS {
                assert(c.push(i).take(MAX_REORDERINGS as int) =~= c.take(MAX_REORDERINGS as int));
            }
        }
        i = i + 1;
    }
    sorted
}


/// At most this many time gaps are recorded.
pub const MAX_TIME_GAPS: usize = 1000;

/// A silence between two consecutive events, longer than a threshold.
#[derive(Debug, Clone, Copy, PartialEq, Eq, Structural)]
pub struct TimeGap {
    pub start_event: usize,
    pub end_event: usize,
}

/// The congestion state that an event announces, if it announces one.
pub open spec fn congestion_update(e: Event) -> Option<CongestionState> {
    match e.data {
        EventData::CongestionStateUpdated { new_state, path_id } => Some(congestion_state_of(new_state@)),
        _ => None,
    }
}

/// The state in force after the first `n` events, the event that entered it,
/// and the periods that ended before.
pub open spec fn congestion_scan(events: Seq<Event>, n: nat) -> (CongestionState, nat, Seq<CongestionPeriod>)
    decreases n,
{
    if n == 0 {
        (CongestionState::Unknown, 0, Seq::empty())
    } else {
        let (cur, start, periods) = congestion_scan(events, (n - 1) as nat);
        match congestion_update(events[n - 1]) {
            Some(next) => (
                next,
                (n - 1) as nat,
                if cur != CongestionState::Unknown {
                    periods.push(
                        CongestionPeriod {
                            state: cur,
                            start_event: start as usize,
                            end_event: (n - 1) as usize,
                        },
                    )
                } else {
                    periods
                },
            ),
            None => (cur, start, periods),
        }
    }
}

/// The congestion periods of a trace: each known state from the update that
/// entered it to the next update, the last one to the last event.
pub open spec fn congestion_periods(events: Seq<Event>) -> Seq<CongestionPeriod> {
    let (cur, start, periods) = congestion_scan(events, events.len());
    if cur != CongestionState::Unknown {
        periods.push(
            CongestionPeriod {
                state: cur,
                start_event: start as usize,
                end_event: (events.len() - 1) as usize,
            },
        )
    } else {
        periods
    }
}

/// The ECN state that an event announces, if it announces one.
pub open spec fn ecn_update(e: Event) -> Option<EcnState> {
    match e.data {
        EventData::EcnStateUpdated { new_state } => Some(new_state),
        _ => None,
    }
}

/// The ECN state in force after the first `n` events, if any, the event that
/// entered it, and the periods that ended before.
pub open spec fn ecn_scan(events: Seq<Event>, n: nat) -> (Option<EcnState>, nat, Seq<EcnPeriod>)
    decreases n,
{
    if n == 0 {
        (None, 0, Seq::empty())
    } else {
        let (cur, start, periods) = ecn_scan(events, (n - 1) as nat);
        match ecn_update(events[n - 1]) {
            Some(next) => (
                Some(next),
                (n - 1) as nat,
                match cur {
                    Some(c) => periods.push(
                        EcnPeriod { state: c, start_event: start as usize, end_event: (n - 1) as usize },
                    ),
                    None => periods,
                },
            ),
            None => (cur, start, periods),
        }
    }
}

/// The ECN periods of a trace.
pub open spec fn ecn_periods(events: Seq<Event>) -> Seq<EcnPeriod> {
    let (cur, start, periods) = ecn_scan(events, events.len());
    match cur {
        Some(c) => periods.push(
            EcnPeriod { state: c, start_event: start as usize, end_event: (events.len() - 1) as usize },
        ),
        None => periods,
    }
}

/// The gaps before the events among the first `n` whose flag is set (event 0
/// has no gap before it).
pub open spec fn gap_candidates(long_gap_before: Seq<bool>, n: nat) -> Seq<TimeGap>
    decreases n,
{
    if n <= 1 {
        Seq::empty()
    } else {
        let rest = gap_candidates(long_gap_before, (n - 1) as nat);
        if long_gap_before[n - 1] {
            rest.push(TimeGap { start_event: (n - 2) as usize, end_event: (n - 1) as usize })
        } else {
            rest
        }
    }
}

fn scan_congestion(events: &Vec<Event>) -> (res: Vec<CongestionPeriod>)
    requires
        events@.len() > 0,
    ensures
        res@ == congestion_periods(events@),
{
    let mut cur = CongestionState::Unknown;
    let mut start: usize = 0;
    let mut periods: Vec<CongestionPeriod> = Vec::new();
    let mut i: usize = 0;
    while i < events.len()
        invariant
            i <= events@.len(),
            congestion_scan(events@, i as nat) == (cur, start as nat, periods@),
        decreases events@.len() - i,
    {
        match &events[i].data {
            EventData::CongestionStateUpdated { new_state, path_id } => {
                if cur != CongestionState::Unknown {
                    periods.push(CongestionPeriod { state: cur, start_event: start, end_event: i });
                }
                cur = CongestionState::from_str(new_state.as_str());
                start = i;
            },
            _ => {},
        }
        i = i + 1;
    }
    if cur != CongestionState::Unknown {
        periods.push(CongestionPeriod { state: cur, start_event: start, end_event: events.len() - 1 });
    }
    periods
}

fn scan_ecn(events: &Vec<Event>) -> (res: Vec<EcnPeriod>)
    requires
        events@.len() > 0,
    ensures
        res@ == ecn_periods(events@),
{
    let mut cur: Option<EcnState> = None;
    let mut start: usize = 0;
    let mut periods: Vec<EcnPeriod> = Vec::new();
    let mut i: usize = 0;
    while i < events.len()
        invariant
            i <= events@.len(),
            ecn_scan(events@, i as nat) == (cur, start as nat, periods@),
        decreases events@.len() - i,
    {
        match &events[i].data {
            EventData::EcnStateUpdated { new_state } => {
                match cur {
                    Some(c) => {
                        periods.push(EcnPeriod { state: c, start_event: start, end_event: i });
                    },
                    None => {},
                }
                cur = Some(*new_state);
                start = i;
            },
            _ => {},
        }
        i = i + 1;
    }
    match cur {
        Some(c) => {
            periods.push(EcnPeriod { state: c, start_event: start, end_event: events.len() - 1 });
        },
        None => {},
    }
    periods
}

/// The events of a list of reorderings.
pub open spec fn reorder_indices(r: Seq<ReorderEvent>) -> Seq<usize> {
    r.map_values(|x: ReorderEvent| x.event_idx)
}

/// The links between the packets of a trace. Times are those of the events
/// named by index.
pub struct PacketCorrelation {
    pub sent_packets: PacketTable<SentPacketInfo>,
    /// For each lost packet, its last loss event.
    pub lost_packets: PacketTable<usize>,
    pub sent_event_to_key: HashMap<usize, PacketKey>,
    pub ack_event_to_sent_keys: HashMap<usize, Vec<PacketKey>>,
    pub loss_event_to_key: HashMap<usize, PacketKey>,
    pub reorderings: Vec<ReorderEvent>,
    pub time_gaps: Vec<TimeGap>,
    pub congestion_states: Vec<CongestionPeriod>,
    pub ecn_states: Vec<EcnPeriod>,
}

impl Default for PacketCorrelation {
    /// A correlation of nothing.
    fn default() -> (res: Self)
        ensures
            res.describes(Seq::empty()),
            res.time_gaps@.len() == 0,
            res.sent_packets@.dom().len() == 0,
            res.lost_packets@.dom().len() == 0,
    {
        PacketCorrelation::new()
    }
}

impl PacketCorrelation {
    /// Whether the correlation is the one of `events` (time gaps aside).
    pub open spec fn describes(&self, events: Seq<Event>) -> bool {
        let sent = sent_set(events);
        &&& forall|k: PacketKey| #[trigger] self.sent_packets@.contains_key(k) <==> sent.contains(k)
        &&& forall|k: PacketKey| #[trigger] self.sent_packets@.contains_key(k) ==> self.sent_packets@[k]
            == sent_info(events, k)
        &&& forall|k: PacketKey| #[trigger] self.lost_packets@.contains_key(k) <==> last_loss(events, events.len(), k) is Some
        &&& forall|k: PacketKey| #[trigger] self.lost_packets@.contains_key(k) ==> self.lost_packets@[k]
            == last_loss(events, events.len(), k).unwrap() as usize
        &&& forall|j: usize| #[trigger] self.sent_event_to_key@.contains_key(j) <==> j < events.len()
            && sent_key(events[j as int]) is Some
        &&& forall|j: usize| #[trigger] self.sent_event_to_key@.contains_key(j) ==> self.sent_event_to_key@[j]
            == sent_key(events[j as int]).unwrap()
        &&& forall|j: usize| #[trigger] self.loss_event_to_key@.contains_key(j) <==> j < events.len()
            && loss_key(events[j as int]) is Some
        &&& forall|j: usize| #[trigger] self.loss_event_to_key@.contains_key(j) ==> self.loss_event_to_key@[j]
            == loss_key(events[j as int]).unwrap()
        &&& forall|j: usize| #[trigger] self.ack_event_to_sent_keys@.contains_key(j) <==> j < events.len()
            && (acked_by_summary(sent, events[j as int]) + acked_by_frames(sent, events[j as int])).len() > 0
        &&& forall|j: usize| #[trigger] self.ack_event_to_sent_keys@.contains_key(j) ==> self.ack_event_to_sent_keys@[j]@
            == acked_by_summary(sent, events[j as int]) + acked_by_frames(sent, events[j as int])
        &&& sorted_by_time(events, reorder_indices(self.reorderings@))
        &&& self.reorderings@.len() == kept_reorderings(events).len()
        &&& forall|y: usize| #[trigger] reorder_indices(self.reorderings@).contains(y)
            <==> kept_reorderings(events).contains(y)
        &&& self.congestion_states@ == (if events.len() == 0 {
            Seq::empty()
        } else {
            congestion_periods(events)
        })
        &&& self.ecn_states@ == (if events.len() == 0 {
            Seq::empty()
        } else {
            ecn_periods(events)
        })
    }

    /// A correlation of nothing.
    pub fn new() -> (res: Self)
        ensures
            res.describes(Seq::empty()),
            res.time_gaps@.len() == 0,
            res.sent_packets@.dom().len() == 0,
            res.lost_packets@.dom().len() == 0,
    {
        let res = PacketCorrelation {
            sent_packets: PacketTable::new(),
            lost_packets: PacketTable::new(),
            sent_event_to_key: HashMap::new(),
            ack_event_to_sent_keys: HashMap::new(),
            loss_event_to_key: HashMap::new(),
            reorderings: Vec::new(),
            time_gaps: Vec::new(),
            congestion_states: Vec::new(),
            ecn_states: Vec::new(),
        };
        proof {
            assert(reorder_candidates(Seq::<Event>::empty(), 0) =~= Seq::<usize>::empty());
            assert(reorder_indices(res.reorderings@) =~= Seq::<usize>::empty());
        }
        res
    }

    /// Correlates the packets of a trace. Time gaps are left empty: they come
    /// from `detect_time_gaps`.
    pub fn from_qlog(qlog: &QlogData) -> (res: Self)
        ensures
            res.describes(qlog.events@),
            res.time_gaps@.len() == 0,
    {
        let events = &qlog.events;
        if events.len() == 0 {
            return Self::new();
        }
        let (mut sent, sent_by_event) = collect_sent(events);
        let ghost dom = sent@.dom();
        proof {
            assert(dom =~= sent_set(events@));
        }
        let (lost, loss_by_event) = collect_losses(events, &mut sent);
        let mut acks: HashMap<usize, Vec<PacketKey>> = HashMap::new();
        link_summary_acks(events, &mut sent, &mut acks);
        let ghost summary_acks = acks@;
        proof {
            assert forall|i: usize| #[trigger] acks@.contains_key(i) implies acked_by_frames(dom, events@[i as int]).len() == 0 by {
                assert(acked_by_summary(dom, events@[i as int]).len() > 0);
            }
        }
        link_frame_acks(events, &mut sent, &mut acks, Ghost(dom));
        let order = find_reorderings(events);
        let mut reorderings: Vec<ReorderEvent> = Vec::new();
        let mut i: usize = 0;
        while i < order.len()
            invariant
                i <= order@.len(),
                reorderings@ == order@.take(i as int).map_values(|x: usize| ReorderEvent { event_idx: x }),
            decreases order@.len() - i,
        {
            reorderings.push(ReorderEvent { event_idx: order[i] });
            proof {
                assert(order@.take(i + 1).map_values(|x: usize| ReorderEvent { event_idx: x })
                    =~= order@.take(i as int).map_values(|x: usize| ReorderEvent { event_idx: x }).push(ReorderEvent { event_idx: order@[i as int] }));
            }
            i = i + 1;
        }
        proof {
            assert(order@.take(order@.len() as int) =~= order@);
            assert(reorder_indices(reorderings@) =~= order@);
        }
        let congestion_states = scan_congestion(events);
        let ecn_states = scan_ecn(events);
        let res = PacketCorrelation {
            sent_packets: sent,
            lost_packets: lost,
            sent_event_to_key: sent_by_event,
            ack_event_to_sent_keys: acks,
            loss_event_to_key: loss_by_event,
            reorderings,
            time_gaps: Vec::new(),
            congestion_states,
            ecn_states,
        };
        proof {
            assert forall|k: PacketKey| #[trigger] res.sent_packets@.contains_key(k) implies res.sent_packets@[k]
                == sent_info(events@, k) by {
            }
            assert forall|j: usize| #[trigger] res.ack_event_to_sent_keys@.contains_key(j) <==> j < events@.len()
                && (acked_by_summary(dom, events@[j as int]) + acked_by_frames(dom, events@[j as int])).len() > 0 by {
                if j < events@.len() {
                    lemma_one_ack_kind(dom, events@[j as int]);
                }
            }
            assert forall|j: usize| #[trigger] res.ack_event_to_sent_keys@.contains_key(j) implies res.ack_event_to_sent_keys@[j]@
                == acked_by_summary(dom, events@[j as int]) + acked_by_frames(dom, events@[j as int]) by {
                lemma_one_ack_kind(dom, events@[j as int]);
                if summary_acks.contains_key(j) {
                    assert(acked_by_frames(dom, events@[j as int]) =~= Seq::<PacketKey>::empty());
                    assert(acked_by_summary(dom, events@[j as int]) + acked_by_frames(dom, events@[j as int])
                        =~= acked_by_summary(dom, events@[j as int]));
                } else {
                    assert(acked_by_summary(dom, events@[j as int]) =~= Seq::<PacketKey>::empty());
                    assert(acked_by_summary(dom, events@[j as int]) + acked_by_frames(dom, events@[j as int])
                        =~= acked_by_frames(dom, events@[j as int]));
                }
            }
        }
        res
    }

    /// Records the long silences of the trace. `long_gap_before[i]` tells
    /// whether the time from event `i - 1` to event `i` exceeds the threshold.
    pub fn detect_time_gaps(&mut self, long_gap_before: &Vec<bool>)
        ensures
            final(self).time_gaps@ == first_n(gap_candidates(long_gap_before@, long_gap_before@.len()), MAX_TIME_GAPS as nat),
            final(self).describes_same(old(self)),
    {
        self.time_gaps = Vec::new();
        if long_gap_before.len() < 2 {
            return;
        }
        let mut i: usize = 1;
        while i < long_gap_before.len()
            invariant
                1 <= i <= long_gap_before@.len(),
                self.time_gaps@ == first_n(gap_candidates(long_gap_before@, i as nat), MAX_TIME_GAPS as nat),
                self.describes_same(old(self)),
            decreases long_gap_before@.len() - i,
        {
            let ghost c = gap_candidates(long_gap_before@, i as nat);
            if long_gap_before[i] && self.time_gaps.len() < MAX_TIME_GAPS {
                self.time_gaps.push(TimeGap { start_event: i - 1, end_event: i });
            }
            proof {
                assert(gap_candidates(long_gap_before@, (i + 1) as nat) == if long_gap_before@[i as int] {
                    c.push(TimeGap { start_event: (i - 1) as usize, end_event: i })
                } else {
                    c
                });
                if long_gap_before@[i as int] && c.len() >= MAX_TIME_GAPS {
                    assert(c.push(TimeGap { start_event: (i - 1) as usize, end_event: i }).take(MAX_TIME_GAPS as int)
                        =~= c.take(MAX_TIME_GAPS as int));
                }
            }
            i = i + 1;
        }
    }

    /// Whether `self` holds the same packet links as `other`.
    pub open spec fn describes_same(&self, other: &Self) -> bool {
        &&& self.sent_packets == other.sent_packets
        &&& self.lost_packets == other.lost_packets
        &&& self.sent_event_to_key == other.sent_event_to_key
        &&& self.ack_event_to_sent_keys == other.ack_event_to_sent_keys
        &&& self.loss_event_to_key == other.loss_event_to_key
        &&& self.reorderings == other.reorderings
        &&& self.congestion_states == other.congestion_states
        &&& self.ecn_states == other.ecn_states
    }

    /// The number of distinct packets declared lost.
    pub fn loss_count(&self) -> (res: usize)
        ensures
            res == self.lost_packets@.dom().len(),
    {
        self.lost_packets.len()
    }
}

proof fn lemma_one_ack_kind(sent: Set<PacketKey>, e: Event)
    ensures
        acked_by_summary(sent, e).len() == 0 || acked_by_frames(sent, e).len() == 0,
{
}


/// The acknowledgement and loss that a sent packet links to.
pub open spec fn sent_relations(info: SentPacketInfo) -> Seq<(usize, Seq<char>)> {
    (match info.ack_event_idx {
        Some(a) => seq![(a, "Acked by"@)],
        None => Seq::empty(),
    }) + (match info.loss_event_idx {
        Some(l) => seq![(l, "Lost at"@)],
        None => Seq::empty(),
    })
}

/// The sending events of the sent packets among `keys`, in order.
pub open spec fn acked_relations(sent: Map<PacketKey, SentPacketInfo>, keys: Seq<PacketKey>) -> Seq<
    (usize, Seq<char>),
>
    decreases keys.len(),
{
    if keys.len() == 0 {
        Seq::empty()
    } else {
        let rest = acked_relations(sent, keys.drop_last());
        if sent.contains_key(keys.last()) {
            rest.push((sent[keys.last()].event_idx, "Acks sent"@))
        } else {
            rest
        }
    }
}

/// Labels relations for display.
pub open spec fn label_view(s: Seq<(usize, &'static str)>) -> Seq<(usize, Seq<char>)> {
    s.map_values(|p: (usize, &'static str)| (p.0, p.1@))
}

impl PacketCorrelation {
    /// The events linked to event `idx`: for a sending event its
    /// acknowledgement and loss, for an acknowledging event the packets it
    /// acknowledges, for a loss event the packet's sending.
    pub open spec fn related_events(&self, idx: usize) -> Seq<(usize, Seq<char>)> {
        let sent = self.sent_packets@;
        let a = if self.sent_event_to_key@.contains_key(idx) && sent.contains_key(self.sent_event_to_key@[idx]) {
            sent_relations(sent[self.sent_event_to_key@[idx]])
        } else {
            Seq::empty()
        };
        let b = if self.ack_event_to_sent_keys@.contains_key(idx) {
            acked_relations(sent, self.ack_event_to_sent_keys@[idx]@)
        } else {
            Seq::empty()
        };
        let c = if self.loss_event_to_key@.contains_key(idx) && sent.contains_key(self.loss_event_to_key@[idx]) {
            seq![(sent[self.loss_event_to_key@[idx]].event_idx, "Original sent"@)]
        } else {
            Seq::empty()
        };
        a + b + c
    }

    /// The events linked to event `idx`, each with the nature of the link.
    pub fn get_related_events(&self, event_idx: usize) -> (res: Vec<(usize, &'static str)>)
        ensures
            label_view(res@) == self.related_events(event_idx),
    {
        let mut related: Vec<(usize, &'static str)> = Vec::new();
        let ghost a: Seq<(usize, Seq<char>)> = Seq::empty();
        match self.sent_event_to_key.get(&event_idx) {
            Some(key) => match self.sent_packets.get(key) {
                Some(sent) => {
                    match sent.ack_event_idx {
                        Some(ack_idx) => {
                            related.push((ack_idx, "Acked by"));
                        },
                        None => {},
                    }
                    match sent.loss_event_idx {
                        Some(loss_idx) => {
                            related.push((loss_idx, "Lost at"));
                        },
                        None => {},
                    }
                    proof {
                        a = sent_relations(*sent);
                        assert(label_view(related@) =~= a);
                    }
                },
                None => {},
            },
            None => {},
        }
        proof {
            assert(label_view(related@) =~= a);
        }
        let ghost after_a = related@;
        match self.ack_event_to_sent_keys.get(&event_idx) {
            Some(keys) => {
                let mut i: usize = 0;
                while i < keys.len()
                    invariant
                        i <= keys@.len(),
                        label_view(related@) == label_view(after_a) + acked_relations(self.sent_packets@, keys@.take(i as int)),
                    decreases keys@.len() - i,
                {
                    let ghost before = related@;
                    proof {
                        assert(keys@.take(i + 1).drop_last() =~= keys@.take(i as int));
                    }
                    match self.sent_packets.get(&keys[i]) {
                        Some(sent) => {
                            related.push((sent.event_idx, "Acks sent"));
                            proof {
                                assert(label_view(related@) =~= label_view(before).push((sent.event_idx, "Acks sent"@)));
                            }
                        },
                        None => {},
                    }
                    i = i + 1;
                }
                proof {
                    assert(keys@.take(keys@.len() as int) =~= keys@);
                }
            },
            None => {
                proof {
                    assert(label_view(related@) =~= label_view(after_a) + Seq::<(usize, Seq<char>)>::empty());
                }
            },
        }
        let ghost after_b = related@;
        match self.loss_event_to_key.get(&event_idx) {
            Some(key) => match self.sent_packets.get(key) {
                Some(sent) => {
                    related.push((sent.event_idx, "Original sent"));
                    proof {
                        assert(label_view(related@) =~= label_view(after_b) + seq![(sent.event_idx, "Original sent"@)]);
                    }
                },
                None => {},
            },
            None => {},
        }
        proof {
            assert(label_view(related@) =~= self.related_events(event_idx));
        }
        related
    }
}

proof fn lemma_first_summary_ack(sent: Set<PacketKey>, events: Seq<Event>, n: nat, k: PacketKey)
    requires
        n <= events.len(),
    ensures
        first_summary_ack(sent, events, n, k) matches Some(j) ==> j < n && acked_by_summary(sent, events[j as int]).contains(k),
    decreases n,
{
    if n > 0 {
        lemma_first_summary_ack(sent, events, (n - 1) as nat, k);
    }
}

proof fn lemma_first_frame_ack(sent: Set<PacketKey>, events: Seq<Event>, n: nat, k: PacketKey)
    requires
        n <= events.len(),
    ensures
        first_frame_ack(sent, events, n, k) matches Some(j) ==> j < n && acked_by_frames(sent, events[j as int]).contains(k),
    decreases n,
{
    if n > 0 {
        lemma_first_frame_ack(sent, events, (n - 1) as nat, k);
    }
}

proof fn lemma_last_sent(events: Seq<Event>, n: nat, k: PacketKey)
    requires
        n <= events.len(),
    ensures
        last_sent(events, n, k) matches Some(j) ==> j < n && sent_key(events[j as int]) == Some(k),
    decreases n,
{
    if n > 0 {
        lemma_last_sent(events, (n - 1) as nat, k);
    }
}

proof fn lemma_last_loss(events: Seq<Event>, n: nat, k: PacketKey)
    requires
        n <= events.len(),
    ensures
        last_loss(events, n, k) matches Some(j) ==> j < n && loss_key(events[j as int]) == Some(k),
        last_loss(events, n, k) is None <==> forall|j: int| 0 <= j < n ==> loss_key(#[trigger] events[j]) != Some(k),
    decreases n,
{
    if n > 0 {
        lemma_last_loss(events, (n - 1) as nat, k);
    }
}

proof fn lemma_acked_relations_has(sent: Map<PacketKey, SentPacketInfo>, keys: Seq<PacketKey>, k: PacketKey)
    requires
        keys.contains(k),
        sent.contains_key(k),
    ensures
        acked_relations(sent, keys).contains((sent[k].event_idx, "Acks sent"@)),
    decreases keys.len(),
{
    let r = acked_relations(sent, keys);
    if keys.last() == k {
        assert(r.last() == (sent[k].event_idx, "Acks sent"@));
    } else {
        let i = choose|i: int| 0 <= i < keys.len() && keys[i] == k;
        assert(keys.drop_last()[i] == k);
        lemma_acked_relations_has(sent, keys.drop_last(), k);
        let r0 = acked_relations(sent, keys.drop_last());
        let j = choose|j: int| 0 <= j < r0.len() && r0[j] == (sent[k].event_idx, "Acks sent"@);
        assert(r[j] == r0[j]);
    }
}

/// A sent packet's acknowledgement links back: the acknowledging event lists
/// the packet among those it acknowledges, and each event shows the other
/// among its related events ("Acked by" one way, "Acks sent" the other).
pub proof fn acknowledgements_link_both_ways(corr: &PacketCorrelation, events: Seq<Event>, k: PacketKey)
    requires
        events.len() <= usize::MAX,
        corr.describes(events),
        corr.sent_packets@.contains_key(k),
        corr.sent_packets@[k].ack_event_idx is Some,
    ensures
        ({
            let info = corr.sent_packets@[k];
            let a = info.ack_event_idx->Some_0;
            &&& a < events.len()
            &&& corr.ack_event_to_sent_keys@.contains_key(a)
            &&& corr.ack_event_to_sent_keys@[a]@.contains(k)
            &&& corr.related_events(info.event_idx).contains((a, "Acked by"@))
            &&& corr.related_events(a).contains((info.event_idx, "Acks sent"@))
        }),
{
    let sent = sent_set(events);
    let info = corr.sent_packets@[k];
    assert(info == sent_info(events, k));
    let a = info.ack_event_idx->Some_0;
    lemma_first_summary_ack(sent, events, events.len(), k);
    lemma_first_frame_ack(sent, events, events.len(), k);
    let j = ack_event(events, k)->Some_0;
    assert(j as usize == a);
    let listed = acked_by_summary(sent, events[j as int]) + acked_by_frames(sent, events[j as int]);
    assert(listed.contains(k)) by {
        if acked_by_summary(sent, events[j as int]).contains(k) {
            let i = choose|i: int| 0 <= i < acked_by_summary(sent, events[j as int]).len() && acked_by_summary(sent, events[j as int])[i] == k;
            assert(listed[i] == k);
        } else {
            let i = choose|i: int| 0 <= i < acked_by_frames(sent, events[j as int]).len() && acked_by_frames(sent, events[j as int])[i] == k;
            assert(listed[acked_by_summary(sent, events[j as int]).len() + i] == k);
        }
    }
    assert(listed.len() > 0);
    assert(corr.ack_event_to_sent_keys@.contains_key(a));
    // The sending event maps back to `k`.
    lemma_last_sent(events, events.len(), k);
    let e = info.event_idx;
    assert(corr.sent_event_to_key@.contains_key(e));
    assert(corr.sent_event_to_key@[e] == k);
    let rel_e = corr.related_events(e);
    let first = sent_relations(info);
    assert(first[0] == (a, "Acked by"@));
    assert(rel_e[0] == first[0]);
    lemma_acked_relations_has(corr.sent_packets@, corr.ack_event_to_sent_keys@[a]@, k);
    let rel_a = corr.related_events(a);
    let part_a = if corr.sent_event_to_key@.contains_key(a) && corr.sent_packets@.contains_key(corr.sent_event_to_key@[a]) {
        sent_relations(corr.sent_packets@[corr.sent_event_to_key@[a]])
    } else {
        Seq::empty()
    };
    let part_b = acked_relations(corr.sent_packets@, corr.ack_event_to_sent_keys@[a]@);
    let i = choose|i: int| 0 <= i < part_b.len() && part_b[i] == (info.event_idx, "Acks sent"@);
    assert(rel_a[part_a.len() + i] == part_b[i]);
}

/// A lost packet's loss links back: the loss event names the packet, and a
/// packet that was also sent records that loss.
pub proof fn losses_link_both_ways(corr: &PacketCorrelation, events: Seq<Event>, k: PacketKey)
    requires
        events.len() <= usize::MAX,
        corr.describes(events),
        corr.lost_packets@.contains_key(k),
    ensures
        ({
            let l = corr.lost_packets@[k];
            &&& l < events.len()
            &&& corr.loss_event_to_key@.contains_key(l)
            &&& corr.loss_event_to_key@[l] == k
            &&& corr.sent_packets@.contains_key(k) ==> corr.sent_packets@[k].loss_event_idx == Some(l)
        }),
{
    lemma_last_loss(events, events.len(), k);
    let l = corr.lost_packets@[k];
    assert(corr.loss_event_to_key@.contains_key(l));
}

/// The number of lost packets counts each packet declared lost once, however
/// often it was declared lost.
pub proof fn loss_count_counts_packets(corr: &PacketCorrelation, events: Seq<Event>)
    requires
        corr.describes(events),
    ensures
        corr.lost_packets@.dom() == Set::new(
            |k: PacketKey| exists|j: int| 0 <= j < events.len() && loss_key(#[trigger] events[j]) == Some(k),
        ),
{
    assert forall|k: PacketKey| corr.lost_packets@.dom().contains(k) <==> (exists|j: int|
        0 <= j < events.len() && loss_key(#[trigger] events[j]) == Some(k)) by {
        lemma_last_loss(events, events.len(), k);
    }
    assert(corr.lost_packets@.dom() =~= Set::new(
        |k: PacketKey| exists|j: int| 0 <= j < events.len() && loss_key(#[trigger] events[j]) == Some(k),
    ));
}

proof fn lemma_candidates_reordered(events: Seq<Event>, n: nat)
    requires
        n <= events.len(),
        n <= usize::MAX,
    ensures
        forall|i: int| 0 <= i < reorder_candidates(events, n).len() ==> is_reordered(
            events,
            (#[trigger] reorder_candidates(events, n)[i]) as nat,
        ),
    decreases n,
{
    if n > 0 {
        lemma_candidates_reordered(events, (n - 1) as nat);
        let r0 = reorder_candidates(events, (n - 1) as nat);
        let r = reorder_candidates(events, n);
        assert forall|i: int| 0 <= i < r.len() implies is_reordered(events, (#[trigger] r[i]) as nat) by {
            if i < r0.len() {
                assert(r[i] == r0[i]);
            }
        }
    }
}

/// At most `MAX_REORDERINGS` reorderings are recorded, in time order, and
/// each is the reception of a packet numbered below one received before it
/// on the same path and packet number space.
pub proof fn reorderings_are_reordered(corr: &PacketCorrelation, events: Seq<Event>)
    requires
        events.len() <= usize::MAX,
        corr.describes(events),
    ensures
        corr.reorderings@.len() <= MAX_REORDERINGS,
        sorted_by_time(events, reorder_indices(corr.reorderings@)),
        forall|i: int| 0 <= i < corr.reorderings@.len() ==> is_reordered(events, (#[trigger] corr.reorderings@[i]).event_idx as nat),
{
    lemma_candidates_reordered(events, events.len());
    let kept = kept_reorderings(events);
    let c = reorder_candidates(events, events.len());
    assert forall|i: int| 0 <= i < corr.reorderings@.len() implies is_reordered(events, (#[trigger] corr.reorderings@[i]).event_idx as nat) by {
        let y = corr.reorderings@[i].event_idx;
        assert(reorder_indices(corr.reorderings@)[i] == y);
        assert(reorder_indices(corr.reorderings@).contains(y));
        assert(kept.contains(y));
        let j = choose|j: int| 0 <= j < kept.len() && kept[j] == y;
        assert(c[j] == y);
    }
}

/// Time gaps join neighbouring events, in trace order, and at most
/// `MAX_TIME_GAPS` are kept.
pub proof fn time_gaps_join_neighbours(flags: Seq<bool>)
    requires
        flags.len() <= usize::MAX,
    ensures
        ({
            let g = first_n(gap_candidates(flags, flags.len()), MAX_TIME_GAPS as nat);
            &&& g.len() <= MAX_TIME_GAPS
            &&& forall|i: int| 0 <= i < g.len() ==> (#[trigger] g[i]).end_event == g[i].start_event + 1
                && g[i].end_event < flags.len() && flags[g[i].end_event as int]
            &&& forall|i: int, j: int| 0 <= i < j < g.len() ==> (#[trigger] g[i]).end_event <= (#[trigger] g[j]).start_event
        }),
{
    lemma_gap_candidates(flags, flags.len());
}

proof fn lemma_gap_candidates(flags: Seq<bool>, n: nat)
    requires
        n <= flags.len(),
        flags.len() <= usize::MAX,
    ensures
        ({
            let g = gap_candidates(flags, n);
            &&& forall|i: int| 0 <= i < g.len() ==> (#[trigger] g[i]).end_event == g[i].start_event + 1
                && g[i].end_event < n && flags[g[i].end_event as int]
            &&& forall|i: int, j: int| 0 <= i < j < g.len() ==> (#[trigger] g[i]).end_event <= (#[trigger] g[j]).start_event
        }),
    decreases n,
{
    if n > 1 {
        lemma_gap_candidates(flags, (n - 1) as nat);
        let g0 = gap_candidates(flags, (n - 1) as nat);
        let g = gap_candidates(flags, n);
        assert forall|i: int| 0 <= i < g.len() implies (#[trigger] g[i]).end_event == g[i].start_event + 1
            && g[i].end_event < n && flags[g[i].end_event as int] by {
            if i < g0.len() {
                assert(g[i] == g0[i]);
            }
        }
        assert forall|i: int, j: int| 0 <= i < j < g.len() implies #[trigger] g[i].end_event <= (#[trigger] g[j]).start_event by {
            assert(g[i] == g0[i]);
            if j < g0.len() {
                assert(g[j] == g0[j]);
            }
        }
    }
}

proof fn lemma_congestion_scan(events: Seq<Event>, n: nat)
    requires
        n <= events.len(),
        events.len() <= usize::MAX,
    ensures
        ({
            let (cur, start, periods) = congestion_scan(events, n);
            &&& n > 0 ==> start < n
            &&& n == 0 ==> start == 0
            &&& forall|i: int| 0 <= i < periods.len() ==> (#[trigger] periods[i]).state != CongestionState::Unknown
                && periods[i].start_event < periods[i].end_event && periods[i].end_event <= start
            &&& forall|i: int, j: int| 0 <= i < j < periods.len() ==> (#[trigger] periods[i]).end_event <= (#[trigger] periods[j]).start_event
        }),
    decreases n,
{
    if n > 0 {
        lemma_congestion_scan(events, (n - 1) as nat);
        let (cur0, start0, p0) = congestion_scan(events, (n - 1) as nat);
        let (cur, start, p) = congestion_scan(events, n);
        if congestion_update(events[n - 1]) is Some && cur0 != CongestionState::Unknown {
            assert forall|i: int| 0 <= i < p.len() implies (#[trigger] p[i]).state != CongestionState::Unknown
                && p[i].start_event < p[i].end_event && p[i].end_event <= start by {
                if i < p0.len() {
                    assert(p[i] == p0[i]);
                } else {
                    assert(start0 < n - 1 || (n - 1 == 0 && start0 == 0)) by {
                        if n - 1 == 0 {
                        }
                    }
                }
            }
            assert forall|i: int, j: int| 0 <= i < j < p.len() implies (#[trigger] p[i]).end_event <= (#[trigger] p[j]).start_event by {
                assert(p[i] == p0[i]);
                if j < p0.len() {
                    assert(p[j] == p0[j]);
                }
            }
        }
    }
}

/// Congestion periods are of known states, follow one another in trace
/// order without overlap, and each spans from the update that entered its
/// state to the next update or to the last event.
pub proof fn congestion_periods_in_order(events: Seq<Event>)
    requires
        events.len() > 0,
        events.len() <= usize::MAX,
    ensures
        ({
            let p = congestion_periods(events);
            &&& forall|i: int| 0 <= i < p.len() ==> (#[trigger] p[i]).state != CongestionState::Unknown
                && p[i].start_event <= p[i].end_event && p[i].end_event < events.len()
            &&& forall|i: int, j: int| 0 <= i < j < p.len() ==> (#[trigger] p[i]).end_event <= (#[trigger] p[j]).start_event
        }),
{
    lemma_congestion_scan(events, events.len());
    let (cur, start, p0) = congestion_scan(events, events.len());
    let p = congestion_periods(events);
    if cur != CongestionState::Unknown {
        assert forall|i: int| 0 <= i < p.len() implies (#[trigger] p[i]).state != CongestionState::Unknown
            && p[i].start_event <= p[i].end_event && p[i].end_event < events.len() by {
            if i < p0.len() {
                assert(p[i] == p0[i]);
            }
        }
        assert forall|i: int, j: int| 0 <= i < j < p.len() implies (#[trigger] p[i]).end_event <= (#[trigger] p[j]).start_event by {
            assert(p[i] == p0[i]);
            if j < p0.len() {
                assert(p[j] == p0[j]);
            }
        }
    }
}

proof fn lemma_ecn_scan(events: Seq<Event>, n: nat)
    requires
        n <= events.len(),
        events.len() <= usize::MAX,
    ensures
        ({
            let (cur, start, periods) = ecn_scan(events, n);
            &&& n > 0 ==> start < n
            &&& n == 0 ==> start == 0
            &&& forall|i: int| 0 <= i < periods.len() ==> (#[trigger] periods[i]).start_event < periods[i].end_event
                && periods[i].end_event <= start
            &&& forall|i: int, j: int| 0 <= i < j < periods.len() ==> (#[trigger] periods[i]).end_event <= (#[trigger] periods[j]).start_event
        }),
    decreases n,
{
    if n > 0 {
        lemma_ecn_scan(events, (n - 1) as nat);
        let (cur0, start0, p0) = ecn_scan(events, (n - 1) as nat);
        let (cur, start, p) = ecn_scan(events, n);
        if ecn_update(events[n - 1]) is Some && cur0 is Some {
            assert forall|i: int| 0 <= i < p.len() implies (#[trigger] p[i]).start_event < p[i].end_event
                && p[i].end_event <= start by {
                if i < p0.len() {
                    assert(p[i] == p0[i]);
                }
            }
            assert forall|i: int, j: int| 0 <= i < j < p.len() implies (#[trigger] p[i]).end_event <= (#[trigger] p[j]).start_event by {
                assert(p[i] == p0[i]);
                if j < p0.len() {
                    assert(p[j] == p0[j]);
                }
            }
        }
    }
}

/// ECN periods follow one another in trace order without overlap, each from
/// the update that entered its state to the next update or the last event.
pub proof fn ecn_periods_in_order(events: Seq<Event>)
    requires
        events.len() > 0,
        events.len() <= usize::MAX,
    ensures
        ({
            let p = ecn_periods(events);
            &&& forall|i: int| 0 <= i < p.len() ==> (#[trigger] p[i]).start_event <= p[i].end_event && p[i].end_event
                < events.len()
            &&& forall|i: int, j: int| 0 <= i < j < p.len() ==> (#[trigger] p[i]).end_event <= (#[trigger] p[j]).start_event
        }),
{
    lemma_ecn_scan(events, events.len());
    let (cur, start, p0) = ecn_scan(events, events.len());
    let p = ecn_periods(events);
    if cur is Some {
        assert forall|i: int| 0 <= i < p.len() implies (#[trigger] p[i]).start_event <= p[i].end_event && p[i].end_event
            < events.len() by {
            if i < p0.len() {
                assert(p[i] == p0[i]);
            }
        }
        assert forall|i: int, j: int| 0 <= i < j < p.len() implies (#[trigger] p[i]).end_event <= (#[trigger] p[j]).start_event by {
            assert(p[i] == p0[i]);
            if j < p0.len() {
                assert(p[j] == p0[j]);
            }
        }
    }
}

/// A state name is read whatever the case of its letters, in its
/// snake_case spelling or run together: `SlowStart`, `slow_start` and
/// `SLOWSTART` all name slow start, and likewise for the other states.
pub proof fn state_names_read_both_spellings(s: Seq<char>)
    ensures
        unicode_lower(s) == "slow_start"@ || unicode_lower(s) == "slowstart"@ ==> congestion_state_of(s)
            == CongestionState::SlowStart,
        unicode_lower(s) == "congestion_avoidance"@ || unicode_lower(s) == "congestionavoidance"@ ==> congestion_state_of(s)
            == CongestionState::CongestionAvoidance,
        unicode_lower(s) == "recovery"@ ==> congestion_state_of(s) == CongestionState::Recovery,
        unicode_lower(s) == "application_limited"@ || unicode_lower(s) == "applicationlimited"@ ==> congestion_state_of(s)
            == CongestionState::ApplicationLimited,
{
    reveal_strlit("slow_start");
    reveal_strlit("slowstart");
    reveal_strlit("congestion_avoidance");
    reveal_strlit("congestionavoidance");
    reveal_strlit("recovery");
    reveal_strlit("application_limited");
    reveal_strlit("applicationlimited");
    assert("slow_start"@.len() == 10 && "slowstart"@.len() == 9 && "recovery"@.len() == 8);
    assert("congestion_avoidance"@.len() == 20 && "congestionavoidance"@.len() == 19);
    assert("application_limited"@.len() == 19 && "applicationlimited"@.len() == 18);
    assert("congestionavoidance"@[0] != "application_limited"@[0]);
}

/// Whether `e` receives packet number `pn` of packet number space `space` on
/// path `path` (a packet without a path counting as path 0).
pub open spec fn receives(e: Event, path: u64, space: PacketType, pn: u64) -> bool {
    &&& e.data is PacketReceived
    &&& e.data->PacketReceived_0.header.packet_number == Some(pn)
    &&& e.data->PacketReceived_0.header.packet_type == space
    &&& match e.data->PacketReceived_0.header.path_id {
        Some(x) => x,
        None => 0,
    } == path
}

proof fn lemma_max_received_witness(events: Seq<Event>, n: nat, sk: PacketKey)
    requires
        n <= events.len(),
    ensures
        max_received(events, n, sk) == 0 || exists|i: int| 0 <= i < n && #[trigger] received_number(events[i]) == Some(
            (sk, max_received(events, n, sk)),
        ),
    decreases n,
{
    if n > 0 {
        lemma_max_received_witness(events, (n - 1) as nat, sk);
        let m = max_received(events, (n - 1) as nat, sk);
        if max_received(events, n, sk) != m {
            assert(received_number(events[n - 1]) == Some((sk, max_received(events, n, sk))));
        } else if m != 0 {
            let i = choose|i: int| 0 <= i < n - 1 && #[trigger] received_number(events[i]) == Some((sk, m));
            assert(0 <= i < n && received_number(events[i]) == Some((sk, max_received(events, n, sk))));
        }
    }
}

/// Every recorded reordering is the reception of a packet whose number is
/// below that of a packet received earlier on the same path and in the same
/// packet number space; receptions in different spaces or on different
/// paths never make each other reordered.
pub proof fn reordering_needs_same_space_higher_number(corr: &PacketCorrelation, events: Seq<Event>)
    requires
        events.len() <= usize::MAX,
        corr.describes(events),
    ensures
        forall|k: int| 0 <= k < corr.reorderings@.len() ==> {
            let y = (#[trigger] corr.reorderings@[k]).event_idx as int;
            &&& 0 <= y < events.len()
            &&& exists|path: u64, space: PacketType, pn: u64| {
                &&& #[trigger] receives(events[y], path, space, pn)
                &&& exists|i: int, m: u64| 0 <= i < y && m > pn && #[trigger] receives(events[i], path, space, m)
            }
        },
{
    reorderings_are_reordered(corr, events);
    lemma_candidates_increasing(events, events.len());
    let kept = kept_reorderings(events);
    let c = reorder_candidates(events, events.len());
    assert forall|k: int| 0 <= k < corr.reorderings@.len() implies {
        let y = (#[trigger] corr.reorderings@[k]).event_idx as int;
        &&& 0 <= y < events.len()
        &&& exists|path: u64, space: PacketType, pn: u64| {
            &&& #[trigger] receives(events[y], path, space, pn)
            &&& exists|i: int, m: u64| 0 <= i < y && m > pn && #[trigger] receives(events[i], path, space, m)
        }
    } by {
        let y = corr.reorderings@[k].event_idx;
        assert(reorder_indices(corr.reorderings@)[k] == y);
        assert(reorder_indices(corr.reorderings@).contains(y));
        assert(kept.contains(y));
        let j = choose|j: int| 0 <= j < kept.len() && kept[j] == y;
        assert(c[j] == y);
        assert(is_reordered(events, y as nat));
        let (sk, pn) = received_number(events[y as int])->Some_0;
        assert(receives(events[y as int], sk.path_id, sk.packet_type, pn));
        lemma_max_received_witness(events, y as nat, sk);
        let m = max_received(events, y as nat, sk);
        let i = choose|i: int| 0 <= i < y && #[trigger] received_number(events[i]) == Some((sk, m));
        assert(receives(events[i], sk.path_id, sk.packet_type, m));
    }
}

proof fn lemma_max_received_at_least(events: Seq<Event>, n: nat, sk: PacketKey, i: int, m: u64)
    requires
        n <= events.len(),
        0 <= i < n,
        received_number(events[i]) == Some((sk, m)),
    ensures
        max_received(events, n, sk) >= m,
    decreases n,
{
    if i < n - 1 {
        lemma_max_received_at_least(events, (n - 1) as nat, sk, i, m);
    }
}

proof fn lemma_reordered_is_candidate(events: Seq<Event>, n: nat, y: nat)
    requires
        y < n <= events.len(),
        n <= usize::MAX,
        is_reordered(events, y),
    ensures
        reorder_candidates(events, n).contains(y as usize),
    decreases n,
{
    if y < n - 1 {
        lemma_reordered_is_candidate(events, (n - 1) as nat, y);
        let r = reorder_candidates(events, (n - 1) as nat);
        let j = choose|j: int| 0 <= j < r.len() && r[j] == y as usize;
        assert(reorder_candidates(events, n)[j] == y as usize);
    } else {
        let r = reorder_candidates(events, n);
        assert(r[r.len() - 1] == y as usize);
    }
}

/// A reception whose number is below that of a packet received earlier on
/// the same path and in the same packet number space is recorded as a
/// reordering, as long as fewer than `MAX_REORDERINGS` are recorded.
pub proof fn lower_than_earlier_reception_is_recorded(
    corr: &PacketCorrelation,
    events: Seq<Event>,
    y: int,
    i: int,
    path: u64,
    space: PacketType,
    pn: u64,
    m: u64,
)
    requires
        events.len() <= usize::MAX,
        corr.describes(events),
        corr.reorderings@.len() < MAX_REORDERINGS,
        0 <= i < y < events.len(),
        receives(events[y], path, space, pn),
        receives(events[i], path, space, m),
        pn < m,
    ensures
        exists|k: int| 0 <= k < corr.reorderings@.len() && (#[trigger] corr.reorderings@[k]).event_idx == y,
{
    let sk = PacketKey { path_id: path, packet_type: space, packet_number: 0 };
    assert(received_number(events[i]) == Some((sk, m)));
    assert(received_number(events[y]) == Some((sk, pn)));
    lemma_max_received_at_least(events, y as nat, sk, i, m);
    assert(is_reordered(events, y as nat));
    lemma_reordered_is_candidate(events, events.len(), y as nat);
    let c = reorder_candidates(events, events.len());
    let kept = kept_reorderings(events);
    assert(kept == c);
    assert(kept.contains(y as usize));
    assert(reorder_indices(corr.reorderings@).contains(y as usize));
    let k = choose|k: int| 0 <= k < reorder_indices(corr.reorderings@).len() && reorder_indices(corr.reorderings@)[k]
        == y as usize;
    assert(corr.reorderings@[k].event_idx == y as usize);
}

} // verus!
