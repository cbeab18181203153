//! Analysis core of a qlog viewer for QUIC connections.
pub mod arrows;
pub mod congestion;
pub mod correlation;
pub mod event_list;
pub mod frames;
pub mod metrics;
pub mod model;
pub mod multiplexing;
pub mod ordering;
pub mod packetization;
pub mod records;
pub mod sequence;
pub mod stats;
pub mod table;
pub mod text;
