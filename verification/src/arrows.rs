//! The packets of a trace as the sequence diagram draws them, and the arrows
//! that join each sent packet to its reception in the peer's trace.
//!
//! Times are order keys and event indices; the caller turns an arrow's event
//! indices into the timestamps at which it is drawn.
use crate::event_list::{offered_packet_types, packet_type_names_in, names_present, packet_types_by_name};
use crate::frames::{frame_type_of, full_packet_type, full_packet_type_of, packet_type_name, packet_type_name_of, short_packet_type, short_packet_type_of, FrameType, FrameTypeView};
use crate::model::{Event, EventData, PacketType, QlogData, QuicFrame};
use crate::ordering::{in_key_order, precedes, stable_order, valid_positions};
use crate::sequence::{extract_path_id, path_of, PacketDirection, TupleInfo};
use crate::table::{PacketKey, PacketTable};
use crate::text::{chars_of, decimal, extend_chars, owned, string_from_chars, u64_to_decimal};
use std::collections::HashMap;
use vstd::prelude::*;

verus! {

broadcast use vstd::std_specs::hash::group_hash_axioms;

/// A packet as the diagram draws it.
pub struct PacketInfo {
    /// Orders packets as their timestamps do.
    pub time_key: i64,
    pub direction: PacketDirection,
    /// The packet number space.
    pub space: PacketType,
    /// The full name of the packet number space.
    pub packet_type: String,
    /// The short name of the packet number space.
    pub packet_type_short: String,
    pub packet_number: u64,
    pub path_id: Option<u64>,
    pub tuple_id: Option<String>,
    pub frames: Vec<FrameType>,
    pub event_idx: usize,
}

/// The packets of a trace, and the names of the packet types among them in
/// name order.
pub struct ExtractedPackets {
    pub packets: Vec<PacketInfo>,
    pub packet_types: Vec<String>,
}

/// The direction and packet of a packet event.
pub open spec fn packet_of(e: Event) -> Option<(PacketDirection, crate::model::PacketEvent)> {
    match e.data {
        EventData::PacketSent(p) => Some((PacketDirection::Sent, p)),
        EventData::PacketReceived(p) => Some((PacketDirection::Received, p)),
        _ => None,
    }
}

/// The kinds of the frames of a packet.
pub open spec fn frame_kinds(frames: Option<Vec<QuicFrame>>) -> Seq<FrameTypeView> {
    match frames {
        Some(fs) => fs@.map_values(|f: QuicFrame| frame_type_of(f)),
        None => Seq::empty(),
    }
}

/// Whether `info` draws event `e`, the `idx`-th of its trace.
pub open spec fn draws(info: PacketInfo, e: Event, idx: usize) -> bool {
    match packet_of(e) {
        Some((dir, p)) => {
            &&& info.time_key == e.time_key
            &&& info.direction == dir
            &&& info.space == p.header.packet_type
            &&& info.packet_type@ == full_packet_type_of(packet_type_name_of(p.header.packet_type))
            &&& info.packet_type_short@ == short_packet_type_of(packet_type_name_of(p.header.packet_type))
            &&& info.packet_number == (match p.header.packet_number {
                Some(n) => n,
                None => 0,
            })
            &&& info.path_id == Some(path_of(e.extra_path_id, p.header.path_id))
            &&& match e.tuple {
                Some(t) => info.tuple_id is Some && info.tuple_id->Some_0@ == t@,
                None => info.tuple_id is None,
            }
            &&& info.frames@.map_values(|f: FrameType| f@) == frame_kinds(p.frames)
            &&& info.event_idx == idx
        },
        None => false,
    }
}

/// The indices of the packet events among the first `n` events.
pub open spec fn packet_event_indices(events: Seq<Event>, n: nat) -> Seq<usize>
    decreases n,
{
    if n == 0 {
        Seq::empty()
    } else {
        let r = packet_event_indices(events, (n - 1) as nat);
        if packet_of(events[n - 1]) is Some {
            r.push((n - 1) as usize)
        } else {
            r
        }
    }
}

/// The kinds of frames, in order.
fn frame_types_of(fs: &Vec<QuicFrame>) -> (res: Vec<FrameType>)
    ensures
        res@.map_values(|f: FrameType| f@) == fs@.map_values(|f: QuicFrame| frame_type_of(f)),
{
    let mut res: Vec<FrameType> = Vec::new();
    let mut k: usize = 0;
    while k < fs.len()
        invariant
            k <= fs@.len(),
            res@.len() == k,
            res@.map_values(|f: FrameType| f@) == fs@.take(k as int).map_values(|f: QuicFrame| frame_type_of(f)),
        decreases fs@.len() - k,
    {
        let t = FrameType::from_quic_frame(&fs[k]);
        let ghost before = res@;
        let ghost tv = t@;
        res.push(t);
        proof {
            let lhs = res@.map_values(|f: FrameType| f@);
            let rhs = fs@.take(k + 1).map_values(|f: QuicFrame| frame_type_of(f));
            let prev = fs@.take(k as int).map_values(|f: QuicFrame| frame_type_of(f));
            assert forall|x: int| 0 <= x < k + 1 implies lhs[x] == rhs[x] by {
                if x < k {
                    assert(res@[x] == before[x]);
                    assert(before.map_values(|f: FrameType| f@)[x] == prev[x]);
                    assert(fs@.take(k + 1)[x] == fs@.take(k as int)[x]);
                } else {
                    assert(res@[x]@ == tv);
                }
            }
            assert(lhs =~= rhs);
        }
        k = k + 1;
    }
    proof {
        assert(fs@.take(k as int) =~= fs@);
    }
    res
}

/// The packets of a trace, in log order, and the names of their packet
/// types in name order.
pub fn extract_packets(qlog: &QlogData) -> (res: ExtractedPackets)
    ensures
        res.packets@.len() == packet_event_indices(qlog.events@, qlog.events@.len()).len(),
        forall|k: int| 0 <= k < res.packets@.len() ==> {
            let idx = packet_event_indices(qlog.events@, qlog.events@.len())[k];
            draws(#[trigger] res.packets@[k], qlog.events@[idx as int], idx)
        },
        res.packet_types@.map_values(|s: String| s@) == packet_type_names_in(
            offered_packet_types(qlog.events@, qlog.events@.len()),
        ),
{
    let events = &qlog.events;
    let mut packets: Vec<PacketInfo> = Vec::new();
    let mut i: usize = 0;
    while i < events.len()
        invariant
            i <= events@.len(),
            packets@.len() == packet_event_indices(events@, i as nat).len(),
            forall|k: int| 0 <= k < packets@.len() ==> {
                let idx = packet_event_indices(events@, i as nat)[k];
                draws(#[trigger] packets@[k], events@[idx as int], idx)
            },
            forall|k: int| 0 <= k < packet_event_indices(events@, i as nat).len() ==> #[trigger] packet_event_indices(
                events@,
                i as nat,
            )[k] < i,
        decreases events@.len() - i,
    {
        let event = &events[i];
        let ghost r = packet_event_indices(events@, i as nat);
        let found = match &event.data {
            EventData::PacketSent(p) => Some((PacketDirection::Sent, p)),
            EventData::PacketReceived(p) => Some((PacketDirection::Received, p)),
            _ => None,
        };
        if let Some((direction, p)) = found {
            let name = packet_type_name(p.header.packet_type);
            let frames = match &p.frames {
                Some(fs) => frame_types_of(fs),
                None => Vec::new(),
            };
            let tuple_id = match &event.tuple {
                Some(t) => Some(owned(t.as_str())),
                None => None,
            };
            let info = PacketInfo {
                time_key: event.time_key,
                direction,
                space: p.header.packet_type,
                packet_type: full_packet_type(name),
                packet_type_short: short_packet_type(name),
                packet_number: match p.header.packet_number {
                    Some(n) => n,
                    None => 0,
                },
                path_id: extract_path_id(event, p.header.path_id),
                tuple_id,
                frames,
                event_idx: i,
            };
            proof {
                if p.frames is None {
                    assert(info.frames@.map_values(|f: FrameType| f@) =~= Seq::<FrameTypeView>::empty());
                }
                assert(draws(info, events@[i as int], i));
            }
            packets.push(info);
            proof {
                let r1 = packet_event_indices(events@, (i + 1) as nat);
                assert(r1 == r.push(i));
                assert forall|k: int| 0 <= k < packets@.len() implies {
                    let idx = r1[k];
                    draws(#[trigger] packets@[k], events@[idx as int], idx)
                } by {
                    if k < r.len() {
                        assert(r1[k] == r[k]);
                    }
                }
            }
        }
        i = i + 1;
    }
    let (_, names, _) = crate::event_list::extract_filter_options(qlog);
    ExtractedPackets { packets, packet_types: names }
}

/// An arrow from a sent packet to its reception, if the peer's trace holds
/// one.
#[derive(Debug, Clone, Copy, PartialEq, Eq, Structural)]
pub struct DualArrow {
    /// The packet, by its place among the sender's packets.
    pub packet_idx: usize,
    /// Whether the left trace sent the packet.
    pub from_left: bool,
    /// Whether the peer's trace holds no reception of it.
    pub is_lost: bool,
    /// The sending event, in the sender's trace.
    pub sent_event_idx: usize,
    /// The receiving event, in the peer's trace.
    pub recv_event_idx: Option<usize>,
    /// The order key of the sending event.
    pub send_key: i64,
    /// The order key of the receiving event, or of the sending event where
    /// there is none.
    pub recv_key: i64,
}

/// What identifies a packet across the two traces: path (0 where the packet
/// has none), packet number space and packet number.
pub open spec fn match_key(p: PacketInfo) -> PacketKey {
    PacketKey {
        path_id: match p.path_id {
            Some(x) => x,
            None => 0,
        },
        packet_type: p.space,
        packet_number: p.packet_number,
    }
}

/// The last packet among the first `n` that was received with key `k`.
pub open spec fn last_receipt(ps: Seq<PacketInfo>, n: nat, k: PacketKey) -> Option<nat>
    decreases n,
{
    if n == 0 {
        None
    } else if ps[n - 1].direction == PacketDirection::Received && match_key(ps[n - 1]) == k {
        Some((n - 1) as nat)
    } else {
        last_receipt(ps, (n - 1) as nat, k)
    }
}

/// The arrow of packet `j` of the sender, matched against the receiver's
/// packets.
pub open spec fn arrow_of(sender: Seq<PacketInfo>, receiver: Seq<PacketInfo>, j: nat, from_left: bool) -> DualArrow {
    let p = sender[j as int];
    match last_receipt(receiver, receiver.len(), match_key(p)) {
        Some(r) => DualArrow {
            packet_idx: j as usize,
            from_left,
            is_lost: false,
            sent_event_idx: p.event_idx,
            recv_event_idx: Some(receiver[r as int].event_idx),
            send_key: p.time_key,
            recv_key: receiver[r as int].time_key,
        },
        None => DualArrow {
            packet_idx: j as usize,
            from_left,
            is_lost: true,
            sent_event_idx: p.event_idx,
            recv_event_idx: None,
            send_key: p.time_key,
            recv_key: p.time_key,
        },
    }
}

/// The arrows of the packets sent among the sender's first `n`.
pub open spec fn side_arrows(sender: Seq<PacketInfo>, receiver: Seq<PacketInfo>, n: nat, from_left: bool) -> Seq<DualArrow>
    decreases n,
{
    if n == 0 {
        Seq::empty()
    } else {
        let r = side_arrows(sender, receiver, (n - 1) as nat, from_left);
        if sender[n - 1].direction == PacketDirection::Sent {
            r.push(arrow_of(sender, receiver, (n - 1) as nat, from_left))
        } else {
            r
        }
    }
}

/// The arrows of both traces: the left trace's sent packets, then the
/// right's, each in log order.
pub open spec fn all_arrows(left: Seq<PacketInfo>, right: Seq<PacketInfo>) -> Seq<DualArrow> {
    side_arrows(left, right, left.len(), true) + side_arrows(right, left, right.len(), false)
}

/// Whether `order` lists each position of `n` once.
pub open spec fn is_permutation(order: Seq<usize>, n: nat) -> bool {
    &&& order.len() == n
    &&& order.to_multiset() == Seq::new(n, |i: int| i as usize).to_multiset()
}

/// The receptions of a trace, by match key.
fn receptions(ps: &Vec<PacketInfo>) -> (res: PacketTable<(usize, i64)>)
    ensures
        forall|k: PacketKey| #[trigger] res@.contains_key(k) <==> last_receipt(ps@, ps@.len(), k) is Some,
        forall|k: PacketKey| #[trigger] res@.contains_key(k) ==> {
            let r = last_receipt(ps@, ps@.len(), k)->Some_0;
            res@[k] == (ps@[r as int].event_idx, ps@[r as int].time_key)
        },
{
    let mut table: PacketTable<(usize, i64)> = PacketTable::new();
    let mut j: usize = 0;
    while j < ps.len()
        invariant
            j <= ps@.len(),
            table@.dom().len() <= j,
            forall|k: PacketKey| #[trigger] table@.contains_key(k) <==> last_receipt(ps@, j as nat, k) is Some,
            forall|k: PacketKey| #[trigger] table@.contains_key(k) ==> {
                let r = last_receipt(ps@, j as nat, k)->Some_0;
                table@[k] == (ps@[r as int].event_idx, ps@[r as int].time_key)
            },
        decreases ps@.len() - j,
    {
        let p = &ps[j];
        if p.direction == PacketDirection::Received {
            let key = PacketKey {
                path_id: match p.path_id {
                    Some(x) => x,
                    None => 0,
                },
                packet_type: p.space,
                packet_number: p.packet_number,
            };
            table.insert(key, (p.event_idx, p.time_key));
        }
        j = j + 1;
    }
    table
}

/// Appends the arrows of the sender's sent packets.
fn add_side(
    arrows: &mut Vec<DualArrow>,
    sender: &Vec<PacketInfo>,
    receiver: &Vec<PacketInfo>,
    table: &PacketTable<(usize, i64)>,
    from_left: bool,
)
    requires
        forall|k: PacketKey| #[trigger] table@.contains_key(k) <==> last_receipt(receiver@, receiver@.len(), k) is Some,
        forall|k: PacketKey| #[trigger] table@.contains_key(k) ==> {
            let r = last_receipt(receiver@, receiver@.len(), k)->Some_0;
            table@[k] == (receiver@[r as int].event_idx, receiver@[r as int].time_key)
        },
    ensures
        final(arrows)@ == old(arrows)@ + side_arrows(sender@, receiver@, sender@.len(), from_left),
{
    let mut j: usize = 0;
    while j < sender.len()
        invariant
            j <= sender@.len(),
            forall|k: PacketKey| #[trigger] table@.contains_key(k) <==> last_receipt(receiver@, receiver@.len(), k) is Some,
            forall|k: PacketKey| #[trigger] table@.contains_key(k) ==> {
                let r = last_receipt(receiver@, receiver@.len(), k)->Some_0;
                table@[k] == (receiver@[r as int].event_idx, receiver@[r as int].time_key)
            },
            arrows@ == old(arrows)@ + side_arrows(sender@, receiver@, j as nat, from_left),
        decreases sender@.len() - j,
    {
        let p = &sender[j];
        if p.direction == PacketDirection::Sent {
            let key = PacketKey {
                path_id: match p.path_id {
                    Some(x) => x,
                    None => 0,
                },
                packet_type: p.space,
                packet_number: p.packet_number,
            };
            let arrow = match table.get(&key) {
                Some(found) => DualArrow {
                    packet_idx: j,
                    from_left,
                    is_lost: false,
                    sent_event_idx: p.event_idx,
                    recv_event_idx: Some(found.0),
                    send_key: p.time_key,
                    recv_key: found.1,
                },
                None => DualArrow {
                    packet_idx: j,
                    from_left,
                    is_lost: true,
                    sent_event_idx: p.event_idx,
                    recv_event_idx: None,
                    send_key: p.time_key,
                    recv_key: p.time_key,
                },
            };
            proof {
                assert(key == match_key(sender@[j as int]));
                assert(arrow == arrow_of(sender@, receiver@, j as nat, from_left));
            }
            arrows.push(arrow);
        }
        j = j + 1;
    }
}

/// Joins each packet sent in one trace to its reception in the other: the
/// last received packet of the same path, space and number. The arrows come
/// in order of sending time, ties in the order of `all_arrows`.
pub fn build_dual_arrows(left: &ExtractedPackets, right: &ExtractedPackets) -> (res: Vec<DualArrow>)
    ensures
        ({
            let all = all_arrows(left.packets@, right.packets@);
            exists|order: Seq<usize>| {
                &&& is_permutation(order, all.len())
                &&& in_key_order(all.map_values(|a: DualArrow| a.send_key), order)
                &&& res@ == order.map_values(|i: usize| all[i as int])
            }
        }),
        forall|a: int, b: int| 0 <= a < b < res@.len() ==> (#[trigger] res@[a]).send_key <= (#[trigger] res@[b]).send_key,
        forall|i: int| 0 <= i < res@.len() ==> dual_arrow_joins(#[trigger] res@[i], left.packets@, right.packets@),
{
    let left_recv = receptions(&left.packets);
    let right_recv = receptions(&right.packets);
    let mut all: Vec<DualArrow> = Vec::new();
    add_side(&mut all, &left.packets, &right.packets, &right_recv, true);
    add_side(&mut all, &right.packets, &left.packets, &left_recv, false);
    let ghost spec_all = all_arrows(left.packets@, right.packets@);
    assert(all@ == spec_all);
    let mut keys: Vec<i64> = Vec::new();
    let mut k: usize = 0;
    while k < all.len()
        invariant
            k <= all@.len(),
            keys@ == all@.take(k as int).map_values(|a: DualArrow| a.send_key),
        decreases all@.len() - k,
    {
        keys.push(all[k].send_key);
        proof {
            assert(keys@ =~= all@.take(k + 1).map_values(|a: DualArrow| a.send_key));
        }
        k = k + 1;
    }
    proof {
        assert(all@.take(k as int) =~= all@);
    }
    let order = stable_order(&keys);
    let mut res: Vec<DualArrow> = Vec::new();
    let mut m: usize = 0;
    while m < order.len()
        invariant
            m <= order@.len(),
            order@.len() == all@.len(),
            valid_positions(keys@, order@),
            keys@.len() == all@.len(),
            res@ == order@.take(m as int).map_values(|i: usize| all@[i as int]),
        decreases order@.len() - m,
    {
        let i = order[m];
        res.push(all[i]);
        proof {
            assert(res@ =~= order@.take(m + 1).map_values(|i: usize| all@[i as int]));
        }
        m = m + 1;
    }
    proof {
        assert(order@.take(m as int) =~= order@);
        assert(is_permutation(order@, spec_all.len()));
        assert forall|a: int, b: int| 0 <= a < b < res@.len() implies (#[trigger] res@[a]).send_key <= (#[trigger] res@[b]).send_key by {
            assert(precedes(keys@, order@[a], order@[b]));
        }
        assert(left.packets.len() == left.packets@.len() && right.packets.len() == right.packets@.len());
        dual_arrows_join_same_packets(left.packets@, right.packets@);
        assert forall|i: int| 0 <= i < res@.len() implies dual_arrow_joins(#[trigger] res@[i], left.packets@, right.packets@) by {
            assert(order@[i] < keys@.len());
            assert(res@[i] == spec_all[order@[i] as int]);
        }
    }
    res
}

/// An arrow is lost exactly when the peer's trace holds no reception of its
/// packet; a found reception is a received packet of the same path, packet
/// number space and number, and the last such one.
pub proof fn arrows_join_same_packet(sender: Seq<PacketInfo>, receiver: Seq<PacketInfo>, j: nat, from_left: bool)
    requires
        j < sender.len(),
    ensures
        ({
            let a = arrow_of(sender, receiver, j, from_left);
            &&& a.is_lost <==> a.recv_event_idx is None
            &&& a.is_lost <==> forall|r: int| 0 <= r < receiver.len() ==> !(#[trigger] receiver[r].direction
                == PacketDirection::Received && match_key(receiver[r]) == match_key(sender[j as int]))
            &&& !a.is_lost ==> exists|r: int| {
                &&& 0 <= r < receiver.len()
                &&& #[trigger] receiver[r].direction == PacketDirection::Received
                &&& match_key(receiver[r]) == match_key(sender[j as int])
                &&& a.recv_event_idx == Some(receiver[r].event_idx)
                &&& forall|q: int| r < q < receiver.len() ==> !(#[trigger] receiver[q].direction == PacketDirection::Received
                    && match_key(receiver[q]) == match_key(sender[j as int]))
            }
        }),
{
    lemma_last_receipt(receiver, receiver.len(), match_key(sender[j as int]));
}

proof fn lemma_last_receipt(ps: Seq<PacketInfo>, n: nat, k: PacketKey)
    requires
        n <= ps.len(),
    ensures
        match last_receipt(ps, n, k) {
            Some(r) => r < n && ps[r as int].direction == PacketDirection::Received && match_key(ps[r as int]) == k
                && forall|q: int| r < q < n ==> !(#[trigger] ps[q].direction == PacketDirection::Received && match_key(ps[q])
                == k),
            None => forall|q: int| 0 <= q < n ==> !(#[trigger] ps[q].direction == PacketDirection::Received && match_key(
                ps[q],
            ) == k),
        },
    decreases n,
{
    if n > 0 {
        lemma_last_receipt(ps, (n - 1) as nat, k);
    }
}

/// The arrows of a single trace: every listed packet, by its place among the
/// packets, sent packets leaving the left side and received ones arriving at
/// it; positions past the end are skipped.
pub fn build_single_file_arrows(packets: &Vec<PacketInfo>, filtered_indices: &Vec<usize>) -> (res: Vec<DualArrow>)
    ensures
        res@ == single_arrows(packets@, filtered_indices@, filtered_indices@.len()),
{
    let mut res: Vec<DualArrow> = Vec::new();
    let mut k: usize = 0;
    while k < filtered_indices.len()
        invariant
            k <= filtered_indices@.len(),
            res@ == single_arrows(packets@, filtered_indices@, k as nat),
        decreases filtered_indices@.len() - k,
    {
        let idx = filtered_indices[k];
        if idx < packets.len() {
            let p = &packets[idx];
            let from_left = p.direction == PacketDirection::Sent;
            let arrow = DualArrow {
                packet_idx: idx,
                from_left,
                is_lost: false,
                sent_event_idx: p.event_idx,
                recv_event_idx: if from_left {
                    None
                } else {
                    Some(p.event_idx)
                },
                send_key: p.time_key,
                recv_key: p.time_key,
            };
            res.push(arrow);
        }
        k = k + 1;
    }
    res
}

/// The arrows of a single trace for the first `n` listed positions.
pub open spec fn single_arrows(packets: Seq<PacketInfo>, listed: Seq<usize>, n: nat) -> Seq<DualArrow>
    decreases n,
{
    if n == 0 {
        Seq::empty()
    } else {
        let r = single_arrows(packets, listed, (n - 1) as nat);
        let idx = listed[n - 1];
        if idx < packets.len() {
            let p = packets[idx as int];
            let from_left = p.direction == PacketDirection::Sent;
            r.push(
                DualArrow {
                    packet_idx: idx,
                    from_left,
                    is_lost: false,
                    sent_event_idx: p.event_idx,
                    recv_event_idx: if from_left {
                        None
                    } else {
                        Some(p.event_idx)
                    },
                    send_key: p.time_key,
                    recv_key: p.time_key,
                },
            )
        } else {
            r
        }
    }
}


/// How many of the first `n` keys equal `k`.
pub open spec fn key_count(keys: Seq<i64>, k: i64, n: int) -> nat
    decreases n,
{
    if n <= 0 {
        0
    } else {
        key_count(keys, k, n - 1) + if keys[n - 1] == k {
            1nat
        } else {
            0nat
        }
    }
}

proof fn lemma_key_count_bound(keys: Seq<i64>, k: i64, n: int)
    ensures
        n >= 0 ==> key_count(keys, k, n) <= n,
    decreases n,
{
    if n > 0 {
        lemma_key_count_bound(keys, k, n - 1);
    }
}

/// For each arrow, given by the key of its send time, its place among the
/// arrows sent at the same time and how many there are; the diagram fans
/// such arrows out.
pub fn fan_out(keys: &Vec<i64>) -> (res: Vec<(usize, usize)>)
    ensures
        res@.len() == keys@.len(),
        forall|j: int| 0 <= j < keys@.len() ==> (#[trigger] res@[j]).0 == key_count(keys@, keys@[j], j)
            && res@[j].1 == key_count(keys@, keys@[j], keys@.len() as int),
{
    let mut counts: HashMap<i64, usize> = HashMap::new();
    let mut i: usize = 0;
    while i < keys.len()
        invariant
            i <= keys@.len(),
            forall|k: i64| #[trigger] counts@.contains_key(k) == (key_count(keys@, k, i as int) > 0),
            forall|k: i64| #[trigger] counts@.contains_key(k) ==> counts@[k] == key_count(keys@, k, i as int),
        decreases keys@.len() - i,
    {
        let k = keys[i];
        proof {
            lemma_key_count_bound(keys@, k, i as int);
        }
        let c: usize = match counts.get(&k) {
            Some(c) => *c,
            None => 0,
        };
        counts.insert(k, c + 1);
        i = i + 1;
    }
    let mut seen: HashMap<i64, usize> = HashMap::new();
    let mut res: Vec<(usize, usize)> = Vec::new();
    let mut j: usize = 0;
    while j < keys.len()
        invariant
            j <= keys@.len(),
            res@.len() == j,
            forall|k: i64| #[trigger] counts@.contains_key(k) == (key_count(keys@, k, keys@.len() as int) > 0),
            forall|k: i64| #[trigger] counts@.contains_key(k) ==> counts@[k] == key_count(keys@, k, keys@.len() as int),
            forall|k: i64| #[trigger] seen@.contains_key(k) == (key_count(keys@, k, j as int) > 0),
            forall|k: i64| #[trigger] seen@.contains_key(k) ==> seen@[k] == key_count(keys@, k, j as int),
            forall|m: int| 0 <= m < j ==> (#[trigger] res@[m]).0 == key_count(keys@, keys@[m], m)
                && res@[m].1 == key_count(keys@, keys@[m], keys@.len() as int),
        decreases keys@.len() - j,
    {
        let k = keys[j];
        proof {
            lemma_key_count_bound(keys@, k, j as int);
            lemma_key_count_monotone(keys@, k, j as int + 1, keys@.len() as int);
        }
        let before: usize = match seen.get(&k) {
            Some(c) => *c,
            None => 0,
        };
        let total: usize = match counts.get(&k) {
            Some(c) => *c,
            None => 0,
        };
        res.push((before, total));
        seen.insert(k, before + 1);
        j = j + 1;
    }
    res
}

proof fn lemma_key_count_monotone(keys: Seq<i64>, k: i64, a: int, b: int)
    requires
        a <= b,
    ensures
        key_count(keys, k, a) <= key_count(keys, k, b),
    decreases b - a,
{
    if a < b {
        lemma_key_count_monotone(keys, k, a, b - 1);
    }
}

/// The remote address of the last tuple named `id`, where it has one.
pub open spec fn tuple_remote(tuples: Seq<TupleInfo>, id: Seq<char>) -> Option<Seq<char>>
    decreases tuples.len(),
{
    if tuples.len() == 0 {
        None
    } else if tuples.last().tuple_id@ == id {
        match tuples.last().remote_addr {
            Some(a) => Some(a@),
            None => None,
        }
    } else {
        tuple_remote(tuples.drop_last(), id)
    }
}

/// The label of a packet's arrow: its short type and number, its path where
/// it has one, and the remote address of its tuple where that is known.
pub open spec fn arrow_label_of(p: PacketInfo, tuples: Seq<TupleInfo>) -> Seq<char> {
    let base = p.packet_type_short@ + ":"@ + decimal(p.packet_number as nat) + match p.path_id {
        Some(pid) => " p"@ + decimal(pid as nat),
        None => Seq::empty(),
    };
    match p.tuple_id {
        Some(t) => match tuple_remote(tuples, t@) {
            Some(r) => base + " ["@ + r + "]"@,
            None => base,
        },
        None => base,
    }
}

/// The label written on a packet's arrow; `tuples` are the sending trace's
/// tuples, the last of a name counting.
pub fn arrow_label(packet: &PacketInfo, tuples: &Vec<TupleInfo>) -> (res: String)
    ensures
        res@ == arrow_label_of(*packet, tuples@),
{
    let mut v = chars_of(packet.packet_type_short.as_str());
    let colon = chars_of(":");
    extend_chars(&mut v, &colon);
    let pn = u64_to_decimal(packet.packet_number);
    extend_chars(&mut v, &pn);
    if let Some(pid) = packet.path_id {
        let p = chars_of(" p");
        extend_chars(&mut v, &p);
        let d = u64_to_decimal(pid);
        extend_chars(&mut v, &d);
    }
    let ghost base = v@;
    proof {
        assert(base =~= packet.packet_type_short@ + ":"@ + decimal(packet.packet_number as nat) + match packet.path_id {
            Some(pid) => " p"@ + decimal(pid as nat),
            None => Seq::<char>::empty(),
        });
    }
    if let Some(t) = &packet.tuple_id {
        let mut k: usize = tuples.len();
        proof {
            assert(tuples@.take(k as int) =~= tuples@);
        }
        while k > 0
            invariant
                k <= tuples@.len(),
                v@ == base,
                arrow_label_of(*packet, tuples@) == match tuple_remote(tuples@, t@) {
                    Some(r) => base + " ["@ + r + "]"@,
                    None => base,
                },
                tuple_remote(tuples@, t@) == tuple_remote(tuples@.take(k as int), t@),
            decreases k,
        {
            proof {
                assert(tuples@.take(k as int).drop_last() =~= tuples@.take(k - 1));
            }
            if crate::text::str_is(tuples[k - 1].tuple_id.as_str(), t.as_str()) {
                if let Some(r) = &tuples[k - 1].remote_addr {
                    let open = chars_of(" [");
                    extend_chars(&mut v, &open);
                    let a = chars_of(r.as_str());
                    extend_chars(&mut v, &a);
                    let close = chars_of("]");
                    extend_chars(&mut v, &close);
                    proof {
                        assert(v@ =~= base + " ["@ + r@ + "]"@);
                    }
                }
                return string_from_chars(v);
            }
            k = k - 1;
        }
    }
    string_from_chars(v)
}

/// Whether `q` and `p` are the same packet: same packet number space, same
/// number and same path (a packet without a path counting as path 0).
pub open spec fn same_packet(q: PacketInfo, p: PacketInfo) -> bool {
    &&& q.space == p.space
    &&& q.packet_number == p.packet_number
    &&& match q.path_id {
        Some(x) => x,
        None => 0,
    } == match p.path_id {
        Some(x) => x,
        None => 0,
    }
}

/// Whether arrow `a` leaves a packet that `sender` sent and ends at a
/// reception of the same packet in `receiver`, or is lost where `receiver`
/// holds none.
pub open spec fn joins_reception(a: DualArrow, sender: Seq<PacketInfo>, receiver: Seq<PacketInfo>) -> bool {
    let p = sender[a.packet_idx as int];
    &&& a.packet_idx < sender.len()
    &&& p.direction == PacketDirection::Sent
    &&& a.sent_event_idx == p.event_idx
    &&& a.is_lost <==> a.recv_event_idx is None
    &&& a.is_lost ==> forall|r: int| 0 <= r < receiver.len() ==> !(#[trigger] receiver[r].direction
        == PacketDirection::Received && same_packet(receiver[r], p))
    &&& !a.is_lost ==> exists|r: int| {
        &&& 0 <= r < receiver.len()
        &&& #[trigger] receiver[r].direction == PacketDirection::Received
        &&& same_packet(receiver[r], p)
        &&& a.recv_event_idx == Some(receiver[r].event_idx)
    }
}

/// Whether arrow `a` of the two traces joins a sent packet to its reception.
pub open spec fn dual_arrow_joins(a: DualArrow, left: Seq<PacketInfo>, right: Seq<PacketInfo>) -> bool {
    if a.from_left {
        joins_reception(a, left, right)
    } else {
        joins_reception(a, right, left)
    }
}

proof fn lemma_side_arrows_join(sender: Seq<PacketInfo>, receiver: Seq<PacketInfo>, n: nat, from_left: bool)
    requires
        n <= sender.len(),
        sender.len() <= usize::MAX,
    ensures
        forall|i: int| 0 <= i < side_arrows(sender, receiver, n, from_left).len() ==> {
            let a = #[trigger] side_arrows(sender, receiver, n, from_left)[i];
            a.from_left == from_left && joins_reception(a, sender, receiver)
        },
    decreases n,
{
    if n > 0 {
        lemma_side_arrows_join(sender, receiver, (n - 1) as nat, from_left);
        let j = (n - 1) as nat;
        let r0 = side_arrows(sender, receiver, j, from_left);
        let r = side_arrows(sender, receiver, n, from_left);
        if sender[j as int].direction == PacketDirection::Sent {
            arrows_join_same_packet(sender, receiver, j, from_left);
            let a = arrow_of(sender, receiver, j, from_left);
            assert(a.packet_idx as int == j);
            assert forall|q: int| 0 <= q < receiver.len() implies (match_key(receiver[q]) == match_key(sender[j as int])
                <==> same_packet(receiver[q], sender[j as int])) by {}
            assert(joins_reception(a, sender, receiver));
            assert forall|i: int| 0 <= i < r.len() implies {
                let b = #[trigger] r[i];
                b.from_left == from_left && joins_reception(b, sender, receiver)
            } by {
                if i < r0.len() {
                    assert(r[i] == r0[i]);
                }
            }
        }
    }
}

/// Each arrow of the two traces leaves a packet that its trace sent and
/// ends at a reception of the same packet (same packet number space, number
/// and path) in the other trace, or is lost exactly where the other trace
/// holds no such reception.
pub proof fn dual_arrows_join_same_packets(left: Seq<PacketInfo>, right: Seq<PacketInfo>)
    requires
        left.len() <= usize::MAX,
        right.len() <= usize::MAX,
    ensures
        forall|i: int| 0 <= i < all_arrows(left, right).len() ==> dual_arrow_joins(
            #[trigger] all_arrows(left, right)[i],
            left,
            right,
        ),
{
    lemma_side_arrows_join(left, right, left.len(), true);
    lemma_side_arrows_join(right, left, right.len(), false);
    let a = side_arrows(left, right, left.len(), true);
    let b = side_arrows(right, left, right.len(), false);
    assert forall|i: int| 0 <= i < all_arrows(left, right).len() implies dual_arrow_joins(
        #[trigger] all_arrows(left, right)[i],
        left,
        right,
    ) by {
        if i < a.len() {
            assert(all_arrows(left, right)[i] == a[i]);
        } else {
            assert(all_arrows(left, right)[i] == b[i - a.len()]);
        }
    }
}

} // verus!
