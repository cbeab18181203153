//! The qlog events as plain values: exactly what the analyses read of a trace.
//!
//! Timestamps appear only as order keys (`time_key`): integers that order
//! events as their timestamps do. Every time that an analysis reports is the
//! index of the event that carries it, so a caller recovers the timestamp
//! from its own copy of the trace.
use vstd::prelude::*;

verus! {

/// The size assumed for a packet whose length the log does not give.
pub const DEFAULT_PACKET_SIZE: u64 = 1200;

/// The packet number space of a QUIC packet, as qlog names it.
#[derive(Debug, Clone, Copy, PartialEq, Eq, Structural)]
pub enum PacketType {
    Initial,
    Handshake,
    ZeroRtt,
    OneRtt,
    Retry,
    VersionNegotiation,
    StatelessReset,
    Unknown,
}

/// The header fields of a packet that the analyses read.
#[derive(Debug, Clone, Copy, PartialEq, Eq, Structural)]
pub struct PacketHeader {
    pub packet_type: PacketType,
    pub packet_number: Option<u64>,
    pub path_id: Option<u64>,
}

/// The ranges of an ACK frame, in the two shapes a log may hold.
///
/// `Single` lists groups of packet numbers; every number of every group is
/// acknowledged. `Double` lists inclusive `(first, last)` ranges.
#[derive(Debug, Clone)]
pub enum AckedRanges {
    Single(Vec<Vec<u64>>),
    Double(Vec<(u64, u64)>),
}

/// A QUIC frame, as far as the analyses read it.
///
/// `raw_length` is the length that the frame's raw info records, where the
/// log gives one; `length` of a STREAM frame is the stream data length.
#[derive(Debug, Clone)]
pub enum QuicFrame {
    Padding { raw_length: Option<u64> },
    Ping,
    Ack { acked_ranges: Option<AckedRanges> },
    ResetStream { stream_id: u64 },
    StopSending { stream_id: u64 },
    Crypto { raw_length: Option<u64> },
    NewToken,
    Stream { stream_id: u64, length: u64, raw_length: Option<u64> },
    MaxData,
    MaxStreamData { stream_id: u64 },
    MaxStreams,
    DataBlocked,
    StreamDataBlocked { stream_id: u64 },
    StreamsBlocked,
    NewConnectionId,
    RetireConnectionId,
    PathChallenge,
    PathResponse,
    PathAck,
    PathAbandon,
    PathStatusAvailable,
    PathStatusBackup,
    PathNewConnectionId,
    PathRetireConnectionId,
    PathsBlocked,
    PathCidsBlocked,
    MaxPathId,
    ConnectionClose,
    HandshakeDone,
    Datagram { raw_length: Option<u64> },
    Unknown { frame_type_bytes: Option<u64>, raw_data: Option<String> },
}

/// A packet that was sent or received.
#[derive(Debug, Clone)]
pub struct PacketEvent {
    pub header: PacketHeader,
    pub raw_length: Option<u64>,
    pub frames: Option<Vec<QuicFrame>>,
}

/// One endpoint of a network tuple.
#[derive(Debug, Clone)]
pub struct TupleEndpoint {
    pub ip_v4: Option<String>,
    pub port_v4: Option<u16>,
    pub ip_v6: Option<String>,
    pub port_v6: Option<u16>,
}

/// The ECN validation state of a path.
#[derive(Debug, Clone, Copy, PartialEq, Eq, Structural)]
pub enum EcnState {
    Testing,
    Unknown,
    Failed,
    Capable,
}

/// The recovery metrics of an update, as far as they are integers, and
/// whether it reports a smoothed round-trip time.
#[derive(Debug, Clone, Copy)]
pub struct MetricsUpdate {
    pub path_id: Option<u64>,
    pub congestion_window: Option<u64>,
    pub bytes_in_flight: Option<u64>,
    pub packets_in_flight: Option<u64>,
    pub has_smoothed_rtt: bool,
}

/// The payload of an event.
///
/// `ConnectionStateUpdated` and `CongestionStateUpdated` carry the name of
/// the new state as the log gives it.
#[derive(Debug, Clone)]
pub enum EventData {
    PacketSent(PacketEvent),
    PacketReceived(PacketEvent),
    PacketLost { header: Option<PacketHeader> },
    PacketsAcked { packet_numbers: Option<Vec<u64>> },
    MetricsUpdated(MetricsUpdate),
    CongestionStateUpdated { new_state: String, path_id: Option<u64> },
    ConnectionStarted,
    ConnectionStateUpdated { new_state: String },
    ConnectionClosed,
    TupleAssigned { tuple_id: String, remote: Option<TupleEndpoint>, local: Option<TupleEndpoint> },
    StreamStateUpdated { stream_id: u64 },
    FramesProcessed { frames: Vec<QuicFrame> },
    TimerUpdated { path_id: Option<u64> },
    EcnStateUpdated { new_state: EcnState },
    ParametersSet,
    ParametersRestored,
    RecoveryParametersSet,
    Other,
}

/// A scalar found under the key `path_id` among an event's extra fields.
#[derive(Debug, Clone)]
pub enum ExtraValue {
    Text(String),
    Number(u64),
    Other,
}

/// The namespace and kind of an event, as qlog classifies it.
///
/// The kind is the variant name of the qlog event type, such as
/// `PacketSent` or `RecoveryMetricsUpdated`.
#[derive(Debug, Clone)]
pub enum EventClass {
    Quic(String),
    Http3(String),
    LogLevel(String),
    Unclassified,
}

/// One event of a trace.
#[derive(Debug, Clone)]
pub struct Event {
    /// Orders events as their timestamps do.
    pub time_key: i64,
    pub class: EventClass,
    pub data: EventData,
    /// The value of the extra field `path_id`, where the event has one.
    pub extra_path_id: Option<ExtraValue>,
    /// The tuple that the event belongs to, where the log names one.
    pub tuple: Option<String>,
}

/// A loaded trace: its events in log order.
pub struct QlogData {
    pub events: Vec<Event>,
}

} // verus!
