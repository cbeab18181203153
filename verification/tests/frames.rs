use n0qlog::frames::{
    derive_short_name, format_bytes, full_packet_type, get_frame_size, get_frame_stream_id,
    short_packet_type, FrameType,
};
use n0qlog::model::QuicFrame;

#[test]
fn format_bytes_matches_two_decimal_formatting() {
    let samples: [u64; 14] = [
        0,
        1,
        1023,
        1024,
        1536,
        10 * 1024 + 5,
        1024 * 1024 - 1,
        1024 * 1024,
        5 * 1024 * 1024 + 123_456,
        1024 * 1024 * 1024 - 1,
        1024 * 1024 * 1024,
        3 * 1024 * 1024 * 1024 + 7,
        u64::MAX / 3,
        u64::MAX,
    ];
    for b in samples {
        let expected = if b >= 1024 * 1024 * 1024 {
            format!("{:.2} GiB", b as f64 / (1024.0 * 1024.0 * 1024.0))
        } else if b >= 1024 * 1024 {
            format!("{:.2} MiB", b as f64 / (1024.0 * 1024.0))
        } else if b >= 1024 {
            format!("{:.2} KiB", b as f64 / 1024.0)
        } else {
            format!("{} B", b)
        };
        assert_eq!(format_bytes(b), expected, "bytes {}", b);
    }
}

#[test]
fn format_bytes_examples() {
    assert_eq!(format_bytes(512), "512 B");
    assert_eq!(format_bytes(1536), "1.50 KiB");
    assert_eq!(format_bytes(1024 * 1024), "1.00 MiB");
}

#[test]
fn frame_names() {
    let stream = FrameType::from_quic_frame(&QuicFrame::Stream {
        stream_id: 4,
        length: 100,
        raw_length: Some(120),
    });
    assert_eq!(stream.display_name(), "STREAM(4)");
    assert_eq!(stream.short_name(), "S04");
    assert!(stream.is_stream());
    let ack = FrameType::from_quic_frame(&QuicFrame::Ack { acked_ranges: None });
    assert_eq!(ack.display_name(), "ACK");
    assert!(!ack.is_stream());
    let unknown = FrameType::from_quic_frame(&QuicFrame::Unknown {
        frame_type_bytes: Some(0x2f),
        raw_data: None,
    });
    assert_eq!(unknown.display_name(), "0X2F");
    assert_eq!(unknown.short_name(), "0x2F");
    let named = FrameType::from_quic_frame(&QuicFrame::Unknown {
        frame_type_bytes: None,
        raw_data: Some("ack_frequency".to_string()),
    });
    assert_eq!(named.display_name(), "ACK_FREQUENCY");
    assert_eq!(named.short_name(), "AF-");
}

#[test]
fn short_names_of_streams() {
    assert_eq!(FrameType::Stream(0).short_name(), "S00");
    assert_eq!(FrameType::Stream(7).short_name(), "S07");
    assert_eq!(FrameType::Stream(12).short_name(), "S12");
    assert_eq!(FrameType::Stream(1234).short_name(), "S1234");
    assert_eq!(FrameType::Stream(123456).short_name(), "S1234");
    assert_eq!(FrameType::MaxStreams.short_name(), "MXS");
    assert_eq!(FrameType::MaxStreamData.short_name(), "MXS");
    assert_eq!(FrameType::Custom("timestamp".to_string()).short_name(), "TIMES");
}

#[test]
fn short_names_of_custom_frames() {
    assert_eq!(derive_short_name("0x1234567"), "0x123");
    assert_eq!(derive_short_name("0x1f2a3"), "0x1f2");
    assert_eq!(derive_short_name("0x"), "0x-");
    assert_eq!(derive_short_name("immediate_ack"), "IA-");
    assert_eq!(derive_short_name("x"), "X--");
    assert_eq!(derive_short_name("time-stamp frame"), "TSF");
    assert_eq!(derive_short_name("datagram!"), "DATAG");
    assert_eq!(derive_short_name("__"), "__-");
    assert_eq!(derive_short_name("a_b_c_d_e_f_g"), "ABCDE");
}

#[test]
fn packet_type_names() {
    assert_eq!(full_packet_type("ZeroRtt"), "0-RTT");
    assert_eq!(full_packet_type("OneRtt"), "1-RTT");
    assert_eq!(full_packet_type("Retry"), "Retry");
    assert_eq!(short_packet_type("Initial"), "I");
    assert_eq!(short_packet_type("OneRtt"), "1R");
    assert_eq!(short_packet_type("Retry"), "Re");
}

#[test]
fn frame_stream_ids_and_sizes() {
    assert_eq!(
        get_frame_stream_id(&QuicFrame::MaxStreamData { stream_id: 8 }),
        Some(8)
    );
    assert_eq!(get_frame_stream_id(&QuicFrame::Ping), None);
    assert_eq!(get_frame_size(&QuicFrame::Crypto { raw_length: Some(33) }), Some(33));
    assert_eq!(get_frame_size(&QuicFrame::Ack { acked_ranges: None }), None);
}
