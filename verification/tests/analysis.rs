use n0qlog::arrows::{build_dual_arrows, build_single_file_arrows, extract_packets, DualArrow};
use n0qlog::correlation::PacketCorrelation;
use n0qlog::event_list::{
    extract_filter_options, filter_events, get_event_category, get_event_packet_type,
    get_event_path_id, get_event_stream_id, navigate_selection, EventListFilters,
};
use n0qlog::model::{
    Event, EventClass, EventData, PacketEvent, PacketHeader, PacketType, QlogData, QuicFrame,
    DEFAULT_PACKET_SIZE,
};
use n0qlog::multiplexing::MultiplexingDiagram;
use n0qlog::packetization::{extract_byte_stream_data, first_visible_packet};
use n0qlog::sequence::PacketDirection;
use n0qlog::stats::{ConnectionStats, StreamStats};

fn event(time_key: i64, class: &str, data: EventData) -> Event {
    Event {
        time_key,
        class: EventClass::Quic(class.to_string()),
        data,
        extra_path_id: None,
        tuple: None,
    }
}

fn packet(t: PacketType, pn: u64, path: Option<u64>, raw: Option<u64>, frames: Option<Vec<QuicFrame>>) -> PacketEvent {
    PacketEvent {
        header: PacketHeader {
            packet_type: t,
            packet_number: Some(pn),
            path_id: path,
        },
        raw_length: raw,
        frames,
    }
}

fn stream(id: u64, length: u64, raw: Option<u64>) -> QuicFrame {
    QuicFrame::Stream {
        stream_id: id,
        length,
        raw_length: raw,
    }
}

fn sample() -> QlogData {
    QlogData {
        events: vec![
            event(0, "ConnectionStarted", EventData::ConnectionStarted),
            event(
                1,
                "PacketSent",
                EventData::PacketSent(packet(
                    PacketType::Initial,
                    0,
                    None,
                    Some(1200),
                    Some(vec![QuicFrame::Crypto { raw_length: Some(300) }, QuicFrame::Padding { raw_length: None }]),
                )),
            ),
            event(
                2,
                "PacketReceived",
                EventData::PacketReceived(packet(
                    PacketType::OneRtt,
                    3,
                    Some(1),
                    None,
                    Some(vec![stream(4, 50, Some(60)), QuicFrame::Ping]),
                )),
            ),
            event(
                3,
                "ConnectionStateUpdated",
                EventData::ConnectionStateUpdated { new_state: "HandshakeConfirmed".to_string() },
            ),
            event(
                4,
                "ConnectionStateUpdated",
                EventData::ConnectionStateUpdated { new_state: "Connected".to_string() },
            ),
            event(
                5,
                "PacketSent",
                EventData::PacketSent(packet(PacketType::OneRtt, 1, Some(1), None, Some(vec![stream(4, 10, None), stream(8, 5, Some(7))]))),
            ),
            event(6, "PacketSent", EventData::PacketSent(packet(PacketType::Handshake, 2, None, None, None))),
            event(
                7,
                "PacketLost",
                EventData::PacketLost { header: Some(PacketHeader { packet_type: PacketType::OneRtt, packet_number: Some(1), path_id: Some(2) }) },
            ),
            event(8, "StreamStateUpdated", EventData::StreamStateUpdated { stream_id: 12 }),
        ],
    }
}

#[test]
fn connection_statistics() {
    let q = sample();
    let corr = PacketCorrelation::from_qlog(&q);
    let stats = ConnectionStats::from_qlog(&q, &corr);
    assert_eq!(stats.packets_sent, 3);
    assert_eq!(stats.packets_received, 1);
    assert_eq!(stats.packets_lost, 1);
    // 1200 raw; stream frames 0+3 and 7+3 plus 20; the default size.
    assert_eq!(stats.bytes_sent, 1200 + (3 + 10 + 20) + DEFAULT_PACKET_SIZE);
    // STREAM 60+3 and PING 1, plus 20.
    assert_eq!(stats.bytes_received, 63 + 1 + 20);
    assert_eq!(
        stats.stream_stats.get(&4),
        Some(&StreamStats { bytes_sent: 0, bytes_received: 60, frames_sent: 1, frames_received: 1 })
    );
    assert_eq!(
        stats.stream_stats.get(&8),
        Some(&StreamStats { bytes_sent: 7, bytes_received: 0, frames_sent: 1, frames_received: 0 })
    );
    assert_eq!(stats.stream_stats.len(), 2);
    assert_eq!(stats.handshake_start, Some(0));
    assert_eq!(stats.handshake_end, Some(4));
    let empty = ConnectionStats::from_qlog(&QlogData { events: vec![] }, &PacketCorrelation::new());
    assert_eq!(empty.packets_sent, 0);
    assert_eq!(empty.handshake_end, None);
}

#[test]
fn frame_size_estimates() {
    assert_eq!(ConnectionStats::estimate_frame_size(&stream(1, 5, Some(40))), 43);
    assert_eq!(ConnectionStats::estimate_frame_size(&QuicFrame::Crypto { raw_length: None }), 2);
    assert_eq!(ConnectionStats::estimate_frame_size(&QuicFrame::NewToken), 50);
    assert_eq!(ConnectionStats::estimate_frame_size(&QuicFrame::PathAck), 10);
}

#[test]
fn multiplexing_segments() {
    let q = sample();
    let diagram = MultiplexingDiagram::new();
    assert_eq!(diagram.max_segments, 2000);
    let (streams, total) = diagram.extract_stream_data(&q);
    assert_eq!(total, 3);
    assert_eq!(streams.get(&4), Some(&vec![(2, 60), (5, 1000)]));
    assert_eq!(streams.get(&8), Some(&vec![(5, 7)]));
    assert_eq!(streams.get(&12), Some(&vec![]));
    let capped = MultiplexingDiagram { max_segments: 1 };
    let (streams, total) = capped.extract_stream_data(&q);
    assert_eq!(total, 3);
    assert_eq!(streams.get(&4), Some(&vec![(2, 60)]));
    assert_eq!(streams.get(&8), None);
}

#[test]
fn byte_stream_layout() {
    let q = sample();
    let (sent, received) = extract_byte_stream_data(&q);
    assert_eq!(sent.packet_count, 3);
    let spans: Vec<(u64, u64)> = sent.packets.iter().map(|p| (p.start_byte, p.end_byte)).collect();
    assert_eq!(spans, vec![(0, 1200), (1200, 2400), (2400, 3600)]);
    assert_eq!(sent.total_bytes, 3600);
    // The CRYPTO frame takes its 300 bytes; PADDING takes an even share of 600.
    let frames: Vec<(u64, u64)> = sent.frames.iter().map(|f| (f.start_byte, f.end_byte)).collect();
    assert_eq!(frames, vec![(0, 300), (300, 900), (1200, 1800), (1800, 1807)]);
    assert_eq!(sent.stream_ranges.get(&4), Some(&vec![(1200, 1210, 5)]));
    assert_eq!(sent.stream_ranges.get(&8), Some(&vec![(1800, 1805, 5)]));
    assert_eq!(received.total_bytes, 1200);
    let rframes: Vec<(u64, u64)> = received.frames.iter().map(|f| (f.start_byte, f.end_byte)).collect();
    assert_eq!(rframes, vec![(0, 60), (60, 660)]);
}

#[test]
fn event_list_lookups() {
    let q = sample();
    assert_eq!(get_event_category(&q.events[0]), "connection");
    assert_eq!(get_event_category(&q.events[1]), "packet");
    assert_eq!(get_event_category(&q.events[8]), "stream");
    assert_eq!(get_event_stream_id(&q.events[8]), Some(12));
    assert_eq!(get_event_path_id(&q.events[2]), Some(1));
    assert_eq!(get_event_path_id(&q.events[7]), Some(2));
    assert_eq!(get_event_packet_type(&q.events[2]), Some("1-RTT".to_string()));
    assert_eq!(get_event_packet_type(&q.events[0]), None);
    let processed = event(
        9,
        "FramesProcessed",
        EventData::FramesProcessed { frames: vec![QuicFrame::Ping, stream(16, 1, None), stream(20, 1, None)] },
    );
    assert_eq!(get_event_stream_id(&processed), Some(16));
}

#[test]
fn default_filters_list_every_event() {
    let q = sample();
    let filters = EventListFilters::default();
    assert_eq!(filter_events(&q, &filters), (0..q.events.len()).collect::<Vec<usize>>());
}

#[test]
fn filters_narrow_the_list() {
    let q = sample();
    let mut filters = EventListFilters::default();
    filters.text = "SENT".to_string();
    assert_eq!(filter_events(&q, &filters), vec![1, 5, 6]);
    filters.packet_type = Some("1-RTT".to_string());
    assert_eq!(filter_events(&q, &filters), vec![5]);
    filters.clear();
    filters.show_packets = false;
    assert_eq!(filter_events(&q, &filters), vec![0, 3, 4, 8]);
    filters.show_packets = true;
    filters.path_id = Some(1);
    assert_eq!(filter_events(&q, &filters), vec![2, 5]);
    filters.path_id = None;
    filters.stream_id = Some(12);
    assert_eq!(filter_events(&q, &filters), vec![8]);
}

#[test]
fn arrow_keys_move_through_the_list() {
    let listed = vec![2, 5, 9];
    assert_eq!(navigate_selection(&listed, Some(5), true, false), Some(2));
    assert_eq!(navigate_selection(&listed, Some(5), false, true), Some(9));
    assert_eq!(navigate_selection(&listed, Some(9), false, true), Some(9));
    assert_eq!(navigate_selection(&listed, Some(2), true, false), Some(2));
    assert_eq!(navigate_selection(&listed, None, false, true), Some(2));
    assert_eq!(navigate_selection(&listed, None, true, false), None);
    assert_eq!(navigate_selection(&listed, Some(7), false, true), Some(7));
    assert_eq!(navigate_selection(&listed, Some(5), false, false), Some(5));
}

#[test]
fn filter_choices() {
    let q = sample();
    let (streams, types, paths) = extract_filter_options(&q);
    assert_eq!(streams, vec![4, 8, 12]);
    assert_eq!(types, vec!["1-RTT".to_string(), "Handshake".to_string(), "Initial".to_string()]);
    assert_eq!(paths, vec![1, 2]);
}

#[test]
fn packets_and_arrows() {
    let left = QlogData {
        events: vec![
            event(10, "PacketSent", EventData::PacketSent(packet(PacketType::Initial, 0, None, None, None))),
            event(30, "PacketSent", EventData::PacketSent(packet(PacketType::OneRtt, 1, None, None, None))),
            event(35, "PacketReceived", EventData::PacketReceived(packet(PacketType::OneRtt, 0, None, None, None))),
        ],
    };
    let right = QlogData {
        events: vec![
            event(12, "PacketReceived", EventData::PacketReceived(packet(PacketType::Initial, 0, Some(0), None, None))),
            event(20, "PacketSent", EventData::PacketSent(packet(PacketType::OneRtt, 0, None, None, None))),
        ],
    };
    let lp = extract_packets(&left);
    let rp = extract_packets(&right);
    assert_eq!(lp.packets.len(), 3);
    assert_eq!(lp.packets[2].direction, PacketDirection::Received);
    assert_eq!(lp.packets[0].packet_type, "Initial");
    assert_eq!(lp.packets[1].packet_type_short, "1R");
    assert_eq!(lp.packet_types, vec!["1-RTT".to_string(), "Initial".to_string()]);
    let arrows = build_dual_arrows(&lp, &rp);
    assert_eq!(
        arrows,
        vec![
            DualArrow { packet_idx: 0, from_left: true, is_lost: false, sent_event_idx: 0, recv_event_idx: Some(0), send_key: 10, recv_key: 12 },
            DualArrow { packet_idx: 1, from_left: false, is_lost: false, sent_event_idx: 1, recv_event_idx: Some(2), send_key: 20, recv_key: 35 },
            DualArrow { packet_idx: 1, from_left: true, is_lost: true, sent_event_idx: 1, recv_event_idx: None, send_key: 30, recv_key: 30 },
        ]
    );
    let single = build_single_file_arrows(&lp.packets, &vec![2, 0, 7]);
    assert_eq!(single.len(), 2);
    assert!(!single[0].from_left);
    assert_eq!(single[0].recv_event_idx, Some(2));
    assert!(single[1].from_left);
    assert_eq!(single[1].recv_event_idx, None);
}

#[test]
fn first_visible_packet_search() {
    let q = sample();
    let (sent, _) = extract_byte_stream_data(&q);
    assert_eq!(first_visible_packet(&sent.packets, 0), 0);
    assert_eq!(first_visible_packet(&sent.packets, 1200), 0);
    assert_eq!(first_visible_packet(&sent.packets, 1201), 1);
    assert_eq!(first_visible_packet(&sent.packets, 3600), 2);
    assert_eq!(first_visible_packet(&sent.packets, 3601), 3);
}
