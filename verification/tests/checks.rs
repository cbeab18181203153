use n0qlog::arrows::{arrow_label, fan_out, PacketInfo};
use n0qlog::congestion::series_fits;
use n0qlog::metrics::{in_flight_jumped, metrics_events, variant_name, EventColors};
use n0qlog::records::{assemble_events, LoadError};
use n0qlog::text::is_whitespace;
use n0qlog::model::{
    Event, EventClass, EventData, MetricsUpdate, PacketEvent, PacketHeader, PacketType, QlogData,
    QuicFrame,
};
use n0qlog::multiplexing::MultiplexingDiagram;
use n0qlog::packetization::byte_layout_fits;
use n0qlog::sequence::{MetricsEventType, PacketDirection, TupleInfo};
use n0qlog::stats::statistics_fit;

fn event(data: EventData) -> Event {
    Event {
        time_key: 0,
        class: EventClass::Quic("x".to_string()),
        data,
        extra_path_id: None,
        tuple: None,
    }
}

fn sent(raw: Option<u64>, frames: Option<Vec<QuicFrame>>) -> EventData {
    EventData::PacketSent(PacketEvent {
        header: PacketHeader { packet_type: PacketType::OneRtt, packet_number: Some(1), path_id: None },
        raw_length: raw,
        frames,
    })
}

fn trace(events: Vec<EventData>) -> QlogData {
    QlogData { events: events.into_iter().map(event).collect() }
}

#[test]
fn ordinary_traces_fit() {
    let q = trace(vec![
        sent(Some(1200), Some(vec![QuicFrame::Stream { stream_id: 0, length: 100, raw_length: Some(110) }])),
        sent(None, None),
    ]);
    assert!(statistics_fit(&q));
    assert!(byte_layout_fits(&q));
    assert!(series_fits(&q, 0));
    assert!(MultiplexingDiagram::new().stream_data_fits(&q));
}

#[test]
fn overflowing_totals_are_caught() {
    let big = trace(vec![sent(Some(u64::MAX), None), sent(Some(1), None)]);
    assert!(!statistics_fit(&big));
    assert!(!byte_layout_fits(&big));
    assert!(!series_fits(&big, 0));
    assert!(series_fits(&big, 7));
    let long_frame = trace(vec![
        sent(Some(10), None),
        sent(Some(10), Some(vec![QuicFrame::Stream { stream_id: 3, length: 5, raw_length: Some(u64::MAX) }])),
    ]);
    assert!(!byte_layout_fits(&long_frame));
    assert!(statistics_fit(&long_frame));
    let two_frames = trace(vec![
        sent(Some(10), Some(vec![QuicFrame::Stream { stream_id: 3, length: 5, raw_length: Some(u64::MAX) }])),
        sent(Some(10), Some(vec![QuicFrame::Stream { stream_id: 3, length: 5, raw_length: Some(1) }])),
    ]);
    assert!(!statistics_fit(&two_frames));
    let estimate = trace(vec![sent(
        None,
        Some(vec![QuicFrame::Crypto { raw_length: Some(u64::MAX - 1) }]),
    )]);
    assert!(!statistics_fit(&estimate));
}

#[test]
fn variant_names() {
    assert_eq!(variant_name("QuicPacketSent(PacketSent { x: 1 })"), "QuicPacketSent");
    assert_eq!(variant_name("Unit { a: 2 }"), "Unit ");
    assert_eq!(variant_name("Plain"), "Plain");
    assert_eq!(variant_name(""), "");
}

#[test]
fn shown_metrics_events() {
    let update = |bif: Option<u64>| {
        EventData::MetricsUpdated(MetricsUpdate {
            path_id: None,
            congestion_window: None,
            bytes_in_flight: bif,
            packets_in_flight: None,
            has_smoothed_rtt: false,
        })
    };
    let q = trace(vec![
        EventData::ConnectionStarted,
        update(Some(10)),
        sent(None, None),
        update(Some(20)),
        update(None),
        EventData::ConnectionClosed,
    ]);
    let names: Vec<String> = ["a", "b", "c", "d", "e", "Closed"].iter().map(|s| s.to_string()).collect();
    let significant = vec![false, true, false, false, false, false];
    let shown: Vec<usize> = metrics_events(&q, &names, &significant, false).iter().map(|(i, _)| *i).collect();
    assert_eq!(shown, vec![0, 1, 5]);
    let all = metrics_events(&q, &names, &significant, true);
    assert_eq!(all.iter().map(|(i, _)| *i).collect::<Vec<_>>(), vec![0, 1, 3, 5]);
    assert!(matches!(&all[3].1, MetricsEventType::Other(n) if n == "Closed"));
}

#[test]
fn event_colors_follow_first_appearance() {
    let mut colors = EventColors::new();
    assert_eq!(colors.color_of("a"), (231, 76, 60));
    assert_eq!(colors.color_of("b"), (52, 152, 219));
    assert_eq!(colors.color_of("a"), (231, 76, 60));
    for k in 0..12 {
        colors.color_of(&format!("n{}", k));
    }
    assert_eq!(colors.names.len(), 14);
    assert_eq!(colors.color_of("fifteenth"), (211, 84, 0));
    assert_eq!(colors.color_of("wraps"), (231, 76, 60));
    assert_eq!(colors.color_of("fifteenth"), (211, 84, 0));
    assert_eq!(colors.color_of("b"), (52, 152, 219));
}

#[test]
fn fan_out_of_simultaneous_sends() {
    assert_eq!(fan_out(&vec![5, 7, 5, 5, 9]), vec![(0, 3), (0, 1), (1, 3), (2, 3), (0, 1)]);
    assert_eq!(fan_out(&vec![]), vec![]);
}

#[test]
fn arrow_labels() {
    let packet = |path: Option<u64>, tuple: Option<&str>| PacketInfo {
        time_key: 0,
        direction: PacketDirection::Sent,
        space: PacketType::OneRtt,
        packet_type: "1-RTT".to_string(),
        packet_type_short: "1R".to_string(),
        packet_number: 42,
        path_id: path,
        tuple_id: tuple.map(|t| t.to_string()),
        frames: vec![],
        event_idx: 0,
    };
    let tuples = vec![
        TupleInfo { tuple_id: "t1".to_string(), remote_addr: Some("1.2.3.4:5".to_string()), local_addr: None },
        TupleInfo { tuple_id: "t2".to_string(), remote_addr: None, local_addr: None },
        TupleInfo { tuple_id: "t1".to_string(), remote_addr: Some("[fd00::1]:12345".to_string()), local_addr: None },
    ];
    assert_eq!(arrow_label(&packet(None, None), &tuples), "1R:42");
    assert_eq!(arrow_label(&packet(Some(3), None), &tuples), "1R:42 p3");
    assert_eq!(arrow_label(&packet(Some(3), Some("t1")), &tuples), "1R:42 p3 [[fd00::1]:12345]");
    assert_eq!(arrow_label(&packet(None, Some("t2")), &tuples), "1R:42");
    assert_eq!(arrow_label(&packet(None, Some("t9")), &tuples), "1R:42");
}

#[test]
fn whitespace_matches_std() {
    for u in 0u32..=0x10FFFF {
        if let Some(c) = char::from_u32(u) {
            assert_eq!(is_whitespace(c), c.is_whitespace(), "{:#x}", u);
        }
    }
}

#[test]
fn in_flight_jumps() {
    assert!(!in_flight_jumped(Some(5000), Some(6000)));
    assert!(in_flight_jumped(Some(5000), Some(6001)));
    assert!(in_flight_jumped(Some(6001), Some(5000)));
    assert!(!in_flight_jumped(None, Some(100000)));
    assert!(!in_flight_jumped(Some(1), None));
}

#[test]
fn assembled_events_keep_order() {
    assert_eq!(assemble_events(false, vec![Some(1), Some(2)]), Err(LoadError::BadHeader));
    assert_eq!(assemble_events(true, vec![Some(1), None, Some(3), None]), Ok(vec![1, 3]));
    assert_eq!(assemble_events::<u8>(true, vec![None]), Ok(vec![]));
    assert_eq!(LoadError::BadHeader.message(), "Failed to parse qlog trace header");
}
