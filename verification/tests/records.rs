use n0qlog::model::{Event, EventClass, EventData, QlogData};
use n0qlog::records::{detect_format, qualified_event_name, LoadError, LogFormat};

fn plain(class: EventClass) -> Event {
    Event {
        time_key: 0,
        class,
        data: EventData::Other,
        extra_path_id: None,
        tuple: None,
    }
}

#[test]
fn test_empty_ndjson_fails() {
    let result = QlogData::from_ndjson("");
    assert!(result.is_err());
}

#[test]
fn test_empty_json_seq_fails() {
    let result = QlogData::from_json_seq("");
    assert!(result.is_err());
}

#[test]
fn empty_file_error_message() {
    let err = QlogData::from_ndjson("\n\r\n\n").err().unwrap();
    assert_eq!(err, LoadError::EmptyFile);
    assert_eq!(err.message(), "Empty JSON-SEQ file");
}

#[test]
fn ndjson_records_are_the_non_empty_lines() {
    let samples = [
        "a\r\nb\n\nc\r",
        "\n\nfirst\nsecond\n",
        "only",
        "x\r\r\ny\n\r\nz",
        "",
        "\r",
    ];
    for s in samples {
        let expected: Vec<String> = s
            .lines()
            .filter(|l| !l.is_empty())
            .map(|l| l.to_string())
            .collect();
        assert_eq!(QlogData::ndjson_records(s), expected, "input {:?}", s);
    }
}

#[test]
fn json_seq_records_are_the_trimmed_non_empty_pieces() {
    let samples = [
        "\u{1e}{\"a\":1}\n\u{1e}{\"b\":2}\n",
        "\u{1e}  \u{1e}\t{}\u{a0}\u{1e}",
        "no separator at all ",
        "",
    ];
    for s in samples {
        let expected: Vec<String> = s
            .split('\x1E')
            .map(|p| p.trim())
            .filter(|p| !p.is_empty())
            .map(|p| p.to_string())
            .collect();
        assert_eq!(QlogData::json_seq_records(s), expected, "input {:?}", s);
    }
}

#[test]
fn header_and_events_are_cut_apart() {
    let text = "{\"qlog_format\":\"JSON-SEQ\"}\n{\"name\":\"transport:packet_sent\"}\n\n{\"name\":\"recovery:metrics_updated\"}\n";
    let records = QlogData::from_ndjson(text).ok().unwrap();
    assert_eq!(records.header, "{\"qlog_format\":\"JSON-SEQ\"}");
    assert_eq!(
        records.events,
        vec![
            "{\"name\":\"quic:packet_sent\"}".to_string(),
            "{\"name\":\"quic:recovery_metrics_updated\"}".to_string(),
        ]
    );
    let seq = QlogData::from_json_seq("\u{1e} {\"qlog_version\":\"0.3\"}\n\u{1e}{\"name\":\"connectivity:connection_started\"}\n")
        .ok()
        .unwrap();
    assert_eq!(seq.header, "{\"qlog_version\":\"0.3\"}");
    assert_eq!(seq.events, vec!["{\"name\":\"quic:connection_started\"}".to_string()]);
}

#[test]
fn event_records_lose_leading_line_feeds() {
    let records = vec!["  header ".to_string(), "\n\n{\"x\":1}".to_string()];
    let cut = QlogData::from_json_lines(&records).ok().unwrap();
    assert_eq!(cut.header, "header");
    assert_eq!(cut.events, vec!["{\"x\":1}".to_string()]);
}

#[test]
fn namespace_normalization_matches_replace() {
    let samples = [
        "{\"name\":\"connectivity:connection_started\",\"data\":{}}",
        "{\"name\":\"transport:packet_sent\"} {\"name\":\"transport:packet_received\"}",
        "{\"name\":\"recovery:metrics_updated\"}",
        "{\"name\":\"quic:packet_sent\"}",
        "\"name\":\"recovery\"",
        "",
    ];
    for s in samples {
        let expected = s
            .replace("\"name\":\"connectivity:", "\"name\":\"quic:")
            .replace("\"name\":\"transport:", "\"name\":\"quic:")
            .replace("\"name\":\"recovery:", "\"name\":\"quic:recovery_");
        assert_eq!(QlogData::normalize_event_namespace(s), expected);
    }
}

#[test]
fn format_detection() {
    assert_eq!(detect_format("\u{1e}{}"), LogFormat::JsonSeq);
    assert_eq!(
        detect_format("{\"qlog_format\":\"NDJSON\"}\n{}\n"),
        LogFormat::NdJson
    );
    assert_eq!(detect_format("{\"qlog_version\":\"0.3\",\"traces\":[]}"), LogFormat::Json);
    assert_eq!(detect_format("{}\n{\"qlog_format\":\"NDJSON\"}"), LogFormat::Json);
    assert_eq!(detect_format(""), LogFormat::Json);
}

#[test]
fn event_names_are_namespaced_snake_case() {
    let data = QlogData { events: vec![] };
    assert_eq!(
        data.get_event_name(&plain(EventClass::Quic("PacketSent".to_string()))),
        "quic:packet_sent"
    );
    assert_eq!(
        data.get_event_name(&plain(EventClass::Quic("RecoveryMetricsUpdated".to_string()))),
        "quic:recovery_metrics_updated"
    );
    assert_eq!(
        data.get_event_name(&plain(EventClass::Http3("FrameCreated".to_string()))),
        "h3:frame_created"
    );
    assert_eq!(data.get_event_name(&plain(EventClass::Unclassified)), "none");
    assert_eq!(
        qualified_event_name(&EventClass::LogLevel(String::new()), "warning"),
        "loglevel:warning"
    );
}
