use n0qlog::congestion::{collect_path_ids, downsample, extract_series, select_path};
use n0qlog::model::{
    Event, EventClass, EventData, MetricsUpdate, PacketEvent, PacketHeader, PacketType, QlogData,
    DEFAULT_PACKET_SIZE,
};
use n0qlog::packetization::{CachingVisualization, PacketizationCache};
use n0qlog::records::{is_qlog_extension, selected_file_after_close};

fn event(data: EventData) -> Event {
    Event {
        time_key: 0,
        class: EventClass::Unclassified,
        data,
        extra_path_id: None,
        tuple: None,
    }
}

fn sent(path: Option<u64>, raw: Option<u64>) -> EventData {
    EventData::PacketSent(PacketEvent {
        header: PacketHeader {
            packet_type: PacketType::OneRtt,
            packet_number: Some(1),
            path_id: path,
        },
        raw_length: raw,
        frames: None,
    })
}

fn metrics(path: Option<u64>, cwnd: Option<u64>) -> EventData {
    EventData::MetricsUpdated(MetricsUpdate {
        path_id: path,
        congestion_window: cwnd,
        bytes_in_flight: Some(10),
        packets_in_flight: None,
        has_smoothed_rtt: false,
    })
}

#[test]
fn congestion_series_of_a_path() {
    let q = QlogData {
        events: vec![
            event(sent(None, Some(100))),
            event(metrics(None, Some(14000))),
            event(sent(Some(1), Some(50))),
            event(sent(None, None)),
            event(EventData::PacketLost { header: None }),
            event(metrics(Some(1), None)),
            event(EventData::ConnectionClosed),
        ],
    };
    assert_eq!(collect_path_ids(&q), vec![0, 1]);
    let s = extract_series(&q, 0);
    assert_eq!(s.data_sent, vec![(0, 100), (3, 100 + DEFAULT_PACKET_SIZE)]);
    assert_eq!(s.data_lost, vec![(4, DEFAULT_PACKET_SIZE)]);
    assert_eq!(s.cwnd, vec![(1, 14000)]);
    assert_eq!(s.bytes_in_flight, vec![(1, 10)]);
    assert_eq!(s.metrics_event_count, 1);
    assert_eq!(s.packets_sent, 2);
    let p1 = extract_series(&q, 1);
    assert_eq!(p1.data_sent, vec![(2, 50)]);
    assert_eq!(p1.metrics_event_count, 1);
    assert!(p1.cwnd.is_empty());
}

#[test]
fn path_selection() {
    assert_eq!(select_path(&vec![0, 2, 5], 2), 2);
    assert_eq!(select_path(&vec![0, 2, 5], 3), 0);
    assert_eq!(select_path(&vec![4], 3), 4);
    assert_eq!(select_path(&vec![], 3), 0);
}

#[test]
fn downsampling_matches_step_by() {
    for len in [0usize, 1, 5, 10, 11, 19, 20, 21, 39, 100, 1234] {
        for max in [1usize, 3, 10, 20] {
            let points: Vec<usize> = (0..len).collect();
            let expected: Vec<usize> = if len <= max {
                points.clone()
            } else {
                let step = len / max;
                points.iter().copied().step_by(step.max(1)).take(max).collect()
            };
            assert_eq!(downsample(&points, max), expected, "len {} max {}", len, max);
        }
    }
}

#[test]
fn qlog_extensions() {
    assert!(is_qlog_extension("qlog"));
    assert!(is_qlog_extension("SQLOG"));
    assert!(is_qlog_extension("Json"));
    assert!(!is_qlog_extension("txt"));
    assert!(!is_qlog_extension(""));
}

#[test]
fn selection_after_closing_a_file() {
    assert_eq!(selected_file_after_close(3, 2, 2), 1);
    assert_eq!(selected_file_after_close(3, 2, 0), 1);
    assert_eq!(selected_file_after_close(3, 0, 1), 0);
    assert_eq!(selected_file_after_close(1, 0, 0), 0);
    assert_eq!(selected_file_after_close(2, 1, 5), 1);
}

#[test]
fn packetization_cache() {
    let q = QlogData {
        events: vec![event(sent(None, Some(300)))],
    };
    let mut cache = PacketizationCache::new();
    assert!(cache.layouts.is_none());
    cache.fill(&q);
    assert_eq!(cache.layouts.as_ref().unwrap().0.total_bytes, 300);
    cache.invalidate_cache();
    assert!(cache.layouts.is_none());
}
