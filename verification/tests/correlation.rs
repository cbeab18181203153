use n0qlog::correlation::{CongestionPeriod, CongestionState, EcnPeriod, PacketCorrelation, TimeGap};
use n0qlog::model::{
    AckedRanges, EcnState, Event, EventClass, EventData, PacketEvent, PacketHeader, PacketType,
    QlogData, QuicFrame,
};
use n0qlog::table::PacketKey;

fn event(time_key: i64, data: EventData) -> Event {
    Event {
        time_key,
        class: EventClass::Unclassified,
        data,
        extra_path_id: None,
        tuple: None,
    }
}

fn header(packet_type: PacketType, pn: u64) -> PacketHeader {
    PacketHeader {
        packet_type,
        packet_number: Some(pn),
        path_id: None,
    }
}

fn sent(pn: u64) -> EventData {
    EventData::PacketSent(PacketEvent {
        header: header(PacketType::OneRtt, pn),
        raw_length: Some(100),
        frames: None,
    })
}

fn received(pn: u64, frames: Option<Vec<QuicFrame>>) -> EventData {
    EventData::PacketReceived(PacketEvent {
        header: header(PacketType::OneRtt, pn),
        raw_length: Some(100),
        frames,
    })
}

fn key(pn: u64) -> PacketKey {
    PacketKey {
        path_id: 0,
        packet_type: PacketType::OneRtt,
        packet_number: pn,
    }
}

#[test]
fn test_congestion_state_from_str() {
    assert_eq!(
        CongestionState::from_str("slow_start"),
        CongestionState::SlowStart
    );
    assert_eq!(
        CongestionState::from_str("SlowStart"),
        CongestionState::SlowStart
    );
    assert_eq!(
        CongestionState::from_str("congestion_avoidance"),
        CongestionState::CongestionAvoidance
    );
    assert_eq!(
        CongestionState::from_str("recovery"),
        CongestionState::Recovery
    );
    assert_eq!(
        CongestionState::from_str("unknown_state"),
        CongestionState::Unknown
    );
}

#[test]
fn test_default_correlation() {
    let correlation = PacketCorrelation::default();
    assert!(correlation.sent_packets.is_empty());
    assert!(correlation.lost_packets.is_empty());
    assert!(correlation.reorderings.is_empty());
    assert!(correlation.time_gaps.is_empty());
    assert!(correlation.congestion_states.is_empty());
}

#[test]
fn congestion_state_names_and_other_spellings() {
    assert_eq!(CongestionState::from_str("APPLICATION_LIMITED"), CongestionState::ApplicationLimited);
    assert_eq!(CongestionState::from_str("CongestionAvoidance"), CongestionState::CongestionAvoidance);
    assert_eq!(CongestionState::SlowStart.name(), "Slow Start");
    assert_eq!(CongestionState::ApplicationLimited.name(), "App Limited");
    assert_eq!(CongestionState::Unknown.name(), "Unknown");
}

#[test]
fn summary_acknowledgement_links_both_ways() {
    let qlog = QlogData {
        events: vec![
            event(0, sent(1)),
            event(1, EventData::PacketsAcked { packet_numbers: Some(vec![1]) }),
        ],
    };
    let corr = PacketCorrelation::from_qlog(&qlog);
    let info = corr.sent_packets.get(&key(1)).unwrap();
    assert_eq!(info.event_idx, 0);
    assert_eq!(info.ack_event_idx, Some(1));
    assert_eq!(info.loss_event_idx, None);
    assert_eq!(corr.get_related_events(0), vec![(1, "Acked by")]);
    assert_eq!(corr.get_related_events(1), vec![(0, "Acks sent")]);
    assert_eq!(corr.loss_count(), 0);
}

#[test]
fn ack_frames_acknowledge_packets_of_their_space() {
    let ack = QuicFrame::Ack {
        acked_ranges: Some(AckedRanges::Double(vec![(1, 2)])),
    };
    let qlog = QlogData {
        events: vec![
            event(0, sent(1)),
            event(1, sent(2)),
            event(2, sent(3)),
            event(3, received(7, Some(vec![ack]))),
        ],
    };
    let corr = PacketCorrelation::from_qlog(&qlog);
    assert_eq!(corr.sent_packets.get(&key(1)).unwrap().ack_event_idx, Some(3));
    assert_eq!(corr.sent_packets.get(&key(2)).unwrap().ack_event_idx, Some(3));
    assert_eq!(corr.sent_packets.get(&key(3)).unwrap().ack_event_idx, None);
    assert_eq!(
        corr.get_related_events(3),
        vec![(0, "Acks sent"), (1, "Acks sent")]
    );
}

#[test]
fn a_packet_lost_twice_counts_once() {
    let lost = |pn: u64| EventData::PacketLost {
        header: Some(header(PacketType::OneRtt, pn)),
    };
    let qlog = QlogData {
        events: vec![
            event(0, sent(4)),
            event(1, lost(4)),
            event(2, lost(4)),
            event(3, lost(9)),
        ],
    };
    let corr = PacketCorrelation::from_qlog(&qlog);
    assert_eq!(corr.loss_count(), 2);
    assert_eq!(corr.sent_packets.get(&key(4)).unwrap().loss_event_idx, Some(2));
    assert_eq!(corr.get_related_events(0), vec![(2, "Lost at")]);
    assert_eq!(corr.get_related_events(2), vec![(0, "Original sent")]);
}

#[test]
fn reordered_receptions_are_recorded() {
    let qlog = QlogData {
        events: vec![
            event(0, received(5, None)),
            event(1, received(3, None)),
            event(2, received(6, None)),
            event(3, received(4, None)),
        ],
    };
    let corr = PacketCorrelation::from_qlog(&qlog);
    let idx: Vec<usize> = corr.reorderings.iter().map(|r| r.event_idx).collect();
    assert_eq!(idx, vec![1, 3]);
}

#[test]
fn congestion_and_ecn_periods() {
    let cong = |s: &str| EventData::CongestionStateUpdated {
        new_state: s.to_string(),
        path_id: None,
    };
    let qlog = QlogData {
        events: vec![
            event(0, cong("slow_start")),
            event(1, EventData::EcnStateUpdated { new_state: EcnState::Testing }),
            event(2, cong("recovery")),
            event(3, EventData::EcnStateUpdated { new_state: EcnState::Capable }),
            event(4, EventData::ConnectionClosed),
        ],
    };
    let corr = PacketCorrelation::from_qlog(&qlog);
    assert_eq!(
        corr.congestion_states,
        vec![
            CongestionPeriod { state: CongestionState::SlowStart, start_event: 0, end_event: 2 },
            CongestionPeriod { state: CongestionState::Recovery, start_event: 2, end_event: 4 },
        ]
    );
    assert_eq!(
        corr.ecn_states,
        vec![
            EcnPeriod { state: EcnState::Testing, start_event: 1, end_event: 3 },
            EcnPeriod { state: EcnState::Capable, start_event: 3, end_event: 4 },
        ]
    );
    assert_eq!(corr.ecn_states[0].name(), "ECN Testing");
}

#[test]
fn time_gaps_follow_flags() {
    let mut corr = PacketCorrelation::new();
    corr.detect_time_gaps(&vec![true, true, false, true]);
    assert_eq!(
        corr.time_gaps,
        vec![
            TimeGap { start_event: 0, end_event: 1 },
            TimeGap { start_event: 2, end_event: 3 },
        ]
    );
}
