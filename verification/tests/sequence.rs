use n0qlog::frames::FrameType;
use n0qlog::model::{
    Event, EventClass, EventData, ExtraValue, MetricsUpdate, PacketHeader, PacketType, QlogData,
    TupleEndpoint,
};
use n0qlog::sequence::{
    extract_path_id, format_bytes, format_endpoint_info, frame_tag_text, group_frame_tags,
    metrics_event_path, metrics_event_type, parse_u64, tuple_infos, MetricsDisplayStyle,
    MetricsEventType, TupleInfo,
};

fn endpoint(ip4: Option<&str>, port4: Option<u16>, ip6: Option<&str>, port6: Option<u16>) -> TupleEndpoint {
    TupleEndpoint {
        ip_v4: ip4.map(|s| s.to_string()),
        port_v4: port4,
        ip_v6: ip6.map(|s| s.to_string()),
        port_v6: port6,
    }
}

fn with_extra(extra: Option<ExtraValue>) -> Event {
    Event {
        time_key: 0,
        class: EventClass::Unclassified,
        data: EventData::Other,
        extra_path_id: extra,
        tuple: None,
    }
}

#[test]
fn compact_byte_counts_match_one_decimal_formatting() {
    let samples: [u64; 12] = [
        0,
        1023,
        1024,
        1075,
        1126,
        10 * 1024 + 51,
        1024 * 1024 - 1,
        1024 * 1024,
        7 * 1024 * 1024 + 99_999,
        1024 * 1024 * 1024,
        123_456_789_012,
        u64::MAX,
    ];
    for b in samples {
        let expected = if b < 1024 {
            format!("{}B", b)
        } else if b < 1024 * 1024 {
            format!("{:.1}KiB", b as f64 / 1024.0)
        } else if b < 1024 * 1024 * 1024 {
            format!("{:.1}MiB", b as f64 / (1024.0 * 1024.0))
        } else {
            format!("{:.1}GiB", b as f64 / (1024.0 * 1024.0 * 1024.0))
        };
        assert_eq!(format_bytes(b), expected, "bytes {}", b);
    }
    assert_eq!(format_bytes(1536), "1.5KiB");
}

#[test]
fn endpoint_addresses() {
    assert_eq!(
        format_endpoint_info(&endpoint(Some("10.0.0.1"), Some(443), Some("::1"), Some(80))),
        Some("10.0.0.1:443".to_string())
    );
    assert_eq!(
        format_endpoint_info(&endpoint(Some("10.0.0.1"), None, Some("fe80::1"), Some(12345))),
        Some("[fe80::1]:12345".to_string())
    );
    assert_eq!(
        format_endpoint_info(&endpoint(Some("10.0.0.1"), None, None, None)),
        Some("10.0.0.1".to_string())
    );
    assert_eq!(
        format_endpoint_info(&endpoint(None, Some(1), Some("::2"), None)),
        Some("[::2]".to_string())
    );
    assert_eq!(format_endpoint_info(&endpoint(None, Some(1), None, Some(2))), None);
}

#[test]
fn tuples_and_relays() {
    let relayed = TupleInfo::from_tuple_assigned(
        "t1".to_string(),
        Some(&endpoint(None, None, Some("fd00::5"), Some(12345))),
        None,
    );
    assert_eq!(relayed.tuple_id, "t1");
    assert_eq!(relayed.remote_display(), "[fd00::5]:12345");
    assert!(relayed.is_relayed());
    assert_eq!(relayed.local_addr, None);
    let direct = TupleInfo::from_tuple_assigned(
        "t2".to_string(),
        Some(&endpoint(Some("1.2.3.4"), Some(4433), None, None)),
        Some(&endpoint(Some("5.6.7.8"), Some(1), None, None)),
    );
    assert!(!direct.is_relayed());
    assert_eq!(direct.local_addr, Some("5.6.7.8:1".to_string()));
    let unknown = TupleInfo {
        tuple_id: "t3".to_string(),
        remote_addr: None,
        local_addr: None,
    };
    assert_eq!(unknown.remote_display(), "unknown");
    assert!(!unknown.is_relayed());
}

#[test]
fn relays_need_a_private_ipv6_address() {
    let remote = |a: &str| TupleInfo {
        tuple_id: "t0".to_string(),
        remote_addr: Some(a.to_string()),
        local_addr: None,
    };
    assert!(!remote("192.168.1.10:12345").is_relayed());
    assert!(!remote("[2001:db8::1]:12345").is_relayed());
    assert!(!remote("[fd00::5]:4433").is_relayed());
    assert!(!remote("[fd::5]:12345").is_relayed());
    assert!(remote("[FC12:3::1]:12345").is_relayed());
    assert!(remote("[fdab:1:2::9]:12345").is_relayed());
}

#[test]
fn parsing_matches_std() {
    let samples = [
        "0",
        "42",
        "+7",
        "+",
        "",
        "-3",
        "12a",
        " 1",
        "18446744073709551615",
        "18446744073709551616",
        "000123",
        "99999999999999999999999",
    ];
    for s in samples {
        assert_eq!(parse_u64(s), s.parse::<u64>().ok(), "input {:?}", s);
    }
}

#[test]
fn path_ids() {
    let none = with_extra(None);
    assert_eq!(extract_path_id(&none, Some(3)), Some(3));
    assert_eq!(extract_path_id(&none, None), Some(0));
    let text = with_extra(Some(ExtraValue::Text("2".to_string())));
    assert_eq!(extract_path_id(&text, None), Some(2));
    let bad = with_extra(Some(ExtraValue::Text("two".to_string())));
    assert_eq!(extract_path_id(&bad, None), Some(0));
    let number = with_extra(Some(ExtraValue::Number(9)));
    assert_eq!(extract_path_id(&number, None), Some(9));
    assert_eq!(extract_path_id(&number, Some(1)), Some(1));
}

#[test]
fn frame_tags_group_runs() {
    let frames = vec![
        FrameType::Ack,
        FrameType::Stream(4),
        FrameType::Stream(4),
        FrameType::Stream(8),
        FrameType::Padding,
        FrameType::Padding,
        FrameType::Padding,
        FrameType::Ack,
    ];
    assert_eq!(
        group_frame_tags(&frames),
        vec![(0, 1), (1, 2), (3, 1), (4, 3), (7, 1)]
    );
    assert_eq!(frame_tag_text(&FrameType::Padding, 3), "PADDING x3");
    assert_eq!(frame_tag_text(&FrameType::Stream(4), 1), "STREAM(4)");
    assert!(group_frame_tags(&vec![]).is_empty());
}

#[test]
fn metrics_event_labels() {
    assert_eq!(MetricsEventType::ConnectionStarted.name(), "Connection Started");
    assert_eq!(MetricsEventType::CongestionStateUpdated.name(), "Congestion State");
    assert_eq!(MetricsEventType::Other("Foo".to_string()).name(), "Foo");
    assert_eq!(MetricsEventType::PacketLost.display_style(), MetricsDisplayStyle::Box);
}

fn with_data(data: EventData) -> Event {
    Event {
        time_key: 0,
        class: EventClass::Unclassified,
        data,
        extra_path_id: Some(ExtraValue::Text("3".to_string())),
        tuple: None,
    }
}

#[test]
fn metrics_event_kinds() {
    let started = with_data(EventData::ConnectionStarted);
    assert!(matches!(metrics_event_type(&started, "x"), Some(MetricsEventType::ConnectionStarted)));
    assert_eq!(metrics_event_path(&started), Some(3));
    let quiet = with_data(EventData::MetricsUpdated(MetricsUpdate {
        path_id: Some(1),
        congestion_window: Some(10),
        bytes_in_flight: None,
        packets_in_flight: None,
        has_smoothed_rtt: false,
    }));
    assert!(metrics_event_type(&quiet, "x").is_none());
    assert_eq!(metrics_event_path(&quiet), Some(1));
    let lost = with_data(EventData::PacketLost {
        header: Some(PacketHeader { packet_type: PacketType::Initial, packet_number: Some(2), path_id: None }),
    });
    assert!(matches!(metrics_event_type(&lost, "x"), Some(MetricsEventType::PacketLost)));
    let unnumbered = with_data(EventData::PacketLost { header: None });
    assert!(metrics_event_type(&unnumbered, "x").is_none());
    let other = with_data(EventData::ConnectionClosed);
    match metrics_event_type(&other, "QuicConnectionClosed") {
        Some(MetricsEventType::Other(name)) => assert_eq!(name, "QuicConnectionClosed"),
        _ => panic!("expected another kind"),
    }
}

#[test]
fn tuples_of_a_trace() {
    let q = QlogData {
        events: vec![
            with_data(EventData::TupleAssigned {
                tuple_id: "a".to_string(),
                remote: Some(endpoint(Some("1.1.1.1"), Some(443), None, None)),
                local: None,
            }),
            with_data(EventData::ConnectionStarted),
            with_data(EventData::TupleAssigned { tuple_id: "b".to_string(), remote: None, local: None }),
        ],
    };
    let infos = tuple_infos(&q);
    assert_eq!(infos.len(), 2);
    assert_eq!(infos[0].tuple_id, "a");
    assert_eq!(infos[0].remote_addr, Some("1.1.1.1:443".to_string()));
    assert_eq!(infos[1].tuple_id, "b");
    assert_eq!(infos[1].remote_display(), "unknown");
}
