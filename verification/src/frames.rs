//! Frame and packet naming, and byte counts for display.
use crate::model::{PacketType, QuicFrame};
use crate::text::{
    chars_of, decimal, digit_char, extend_chars, hex_upper, is_alphanumeric, owned, prefix,
    starts_with, str_is, string_from_chars, take_chars, to_uppercase, u64_to_decimal,
    u64_to_hex_upper, unicode_alphanumeric, unicode_upper, vec_starts_with,
};
use vstd::prelude::*;

verus! {

/// The kind of a QUIC frame, for display and colouring.
#[derive(Debug, Clone, PartialEq)]
pub enum FrameType {
    Padding,
    Ping,
    Ack,
    ResetStream,
    StopSending,
    Crypto,
    NewToken,
    Stream(u64),
    MaxData,
    MaxStreamData,
    MaxStreams,
    DataBlocked,
    StreamDataBlocked,
    StreamsBlocked,
    NewConnectionId,
    RetireConnectionId,
    PathChallenge,
    PathResponse,
    PathAck,
    PathAbandon,
    PathStatusAvailable,
    PathStatusBackup,
    PathNewConnectionId,
    PathRetireConnectionId,
    PathsBlocked,
    PathCidsBlocked,
    MaxPathId,
    ConnectionClose,
    HandshakeDone,
    Datagram,
    Custom(String),
}

/// The name that an unknown frame is shown by: its raw data where the log
/// has it, else its type in hexadecimal, else `Unknown`.
pub open spec fn unknown_frame_name(frame_type_bytes: Option<u64>, raw_data: Option<String>) -> Seq<char> {
    match raw_data {
        Some(d) => d@,
        None => match frame_type_bytes {
            Some(b) => "0x"@ + hex_upper(b as nat),
            None => "Unknown"@,
        },
    }
}

/// The kind of a frame, as a view.
pub open spec fn frame_type_of(f: QuicFrame) -> FrameTypeView {
    match f {
        QuicFrame::Padding { .. } => FrameTypeView::Padding,
        QuicFrame::Ping => FrameTypeView::Ping,
        QuicFrame::Ack { .. } => FrameTypeView::Ack,
        QuicFrame::ResetStream { .. } => FrameTypeView::ResetStream,
        QuicFrame::StopSending { .. } => FrameTypeView::StopSending,
        QuicFrame::Crypto { .. } => FrameTypeView::Crypto,
        QuicFrame::NewToken => FrameTypeView::NewToken,
        QuicFrame::Stream { stream_id, .. } => FrameTypeView::Stream(stream_id),
        QuicFrame::MaxData => FrameTypeView::MaxData,
        QuicFrame::MaxStreamData { .. } => FrameTypeView::MaxStreamData,
        QuicFrame::MaxStreams => FrameTypeView::MaxStreams,
        QuicFrame::DataBlocked => FrameTypeView::DataBlocked,
        QuicFrame::StreamDataBlocked { .. } => FrameTypeView::StreamDataBlocked,
        QuicFrame::StreamsBlocked => FrameTypeView::StreamsBlocked,
        QuicFrame::NewConnectionId => FrameTypeView::NewConnectionId,
        QuicFrame::RetireConnectionId => FrameTypeView::RetireConnectionId,
        QuicFrame::PathChallenge => FrameTypeView::PathChallenge,
        QuicFrame::PathResponse => FrameTypeView::PathResponse,
        QuicFrame::PathAck => FrameTypeView::PathAck,
        QuicFrame::PathAbandon => FrameTypeView::PathAbandon,
        QuicFrame::PathStatusAvailable => FrameTypeView::PathStatusAvailable,
        QuicFrame::PathStatusBackup => FrameTypeView::PathStatusBackup,
        QuicFrame::PathNewConnectionId => FrameTypeView::PathNewConnectionId,
        QuicFrame::PathRetireConnectionId => FrameTypeView::PathRetireConnectionId,
        QuicFrame::PathsBlocked => FrameTypeView::PathsBlocked,
        QuicFrame::PathCidsBlocked => FrameTypeView::PathCidsBlocked,
        QuicFrame::MaxPathId => FrameTypeView::MaxPathId,
        QuicFrame::ConnectionClose => FrameTypeView::ConnectionClose,
        QuicFrame::HandshakeDone => FrameTypeView::HandshakeDone,
        QuicFrame::Datagram { .. } => FrameTypeView::Datagram,
        QuicFrame::Unknown { frame_type_bytes, raw_data } => FrameTypeView::Custom(
            unknown_frame_name(frame_type_bytes, raw_data),
        ),
    }
}

/// A frame kind with its custom name as characters.
pub ghost enum FrameTypeView {
    Padding,
    Ping,
    Ack,
    ResetStream,
    StopSending,
    Crypto,
    NewToken,
    Stream(u64),
    MaxData,
    MaxStreamData,
    MaxStreams,
    DataBlocked,
    StreamDataBlocked,
    StreamsBlocked,
    NewConnectionId,
    RetireConnectionId,
    PathChallenge,
    PathResponse,
    PathAck,
    PathAbandon,
    PathStatusAvailable,
    PathStatusBackup,
    PathNewConnectionId,
    PathRetireConnectionId,
    PathsBlocked,
    PathCidsBlocked,
    MaxPathId,
    ConnectionClose,
    HandshakeDone,
    Datagram,
    Custom(Seq<char>),
}

impl View for FrameType {
    type V = FrameTypeView;

    open spec fn view(&self) -> FrameTypeView {
        match self {
            FrameType::Padding => FrameTypeView::Padding,
            FrameType::Ping => FrameTypeView::Ping,
            FrameType::Ack => FrameTypeView::Ack,
            FrameType::ResetStream => FrameTypeView::ResetStream,
            FrameType::StopSending => FrameTypeView::StopSending,
            FrameType::Crypto => FrameTypeView::Crypto,
            FrameType::NewToken => FrameTypeView::NewToken,
            FrameType::Stream(id) => FrameTypeView::Stream(*id),
            FrameType::MaxData => FrameTypeView::MaxData,
            FrameType::MaxStreamData => FrameTypeView::MaxStreamData,
            FrameType::MaxStreams => FrameTypeView::MaxStreams,
            FrameType::DataBlocked => FrameTypeView::DataBlocked,
            FrameType::StreamDataBlocked => FrameTypeView::StreamDataBlocked,
            FrameType::StreamsBlocked => FrameTypeView::StreamsBlocked,
            FrameType::NewConnectionId => FrameTypeView::NewConnectionId,
            FrameType::RetireConnectionId => FrameTypeView::RetireConnectionId,
            FrameType::PathChallenge => FrameTypeView::PathChallenge,
            FrameType::PathResponse => FrameTypeView::PathResponse,
            FrameType::PathAck => FrameTypeView::PathAck,
            FrameType::PathAbandon => FrameTypeView::PathAbandon,
            FrameType::PathStatusAvailable => FrameTypeView::PathStatusAvailable,
            FrameType::PathStatusBackup => FrameTypeView::PathStatusBackup,
            FrameType::PathNewConnectionId => FrameTypeView::PathNewConnectionId,
            FrameType::PathRetireConnectionId => FrameTypeView::PathRetireConnectionId,
            FrameType::PathsBlocked => FrameTypeView::PathsBlocked,
            FrameType::PathCidsBlocked => FrameTypeView::PathCidsBlocked,
            FrameType::MaxPathId => FrameTypeView::MaxPathId,
            FrameType::ConnectionClose => FrameTypeView::ConnectionClose,
            FrameType::HandshakeDone => FrameTypeView::HandshakeDone,
            FrameType::Datagram => FrameTypeView::Datagram,
            FrameType::Custom(name) => FrameTypeView::Custom(name@),
        }
    }
}

/// The full display name of a frame kind.
pub open spec fn display_name_of(f: FrameTypeView) -> Seq<char> {
    match f {
        FrameTypeView::Padding => "PADDING"@,
        FrameTypeView::Ping => "PING"@,
        FrameTypeView::Ack => "ACK"@,
        FrameTypeView::ResetStream => "RESET_STREAM"@,
        FrameTypeView::StopSending => "STOP_SENDING"@,
        FrameTypeView::Crypto => "CRYPTO"@,
        FrameTypeView::NewToken => "NEW_TOKEN"@,
        FrameTypeView::Stream(id) => "STREAM("@ + decimal(id as nat) + ")"@,
        FrameTypeView::MaxData => "MAX_DATA"@,
        FrameTypeView::MaxStreamData => "MAX_STREAM_DATA"@,
        FrameTypeView::MaxStreams => "MAX_STREAMS"@,
        FrameTypeView::DataBlocked => "DATA_BLOCKED"@,
        FrameTypeView::StreamDataBlocked => "STREAM_DATA_BLOCKED"@,
        FrameTypeView::StreamsBlocked => "STREAMS_BLOCKED"@,
        FrameTypeView::NewConnectionId => "NEW_CONNECTION_ID"@,
        FrameTypeView::RetireConnectionId => "RETIRE_CONNECTION_ID"@,
        FrameTypeView::PathChallenge => "PATH_CHALLENGE"@,
        FrameTypeView::PathResponse => "PATH_RESPONSE"@,
        FrameTypeView::PathAck => "PATH_ACK"@,
        FrameTypeView::PathAbandon => "PATH_ABANDON"@,
        FrameTypeView::PathStatusAvailable => "PATH_STATUS_AVAILABLE"@,
        FrameTypeView::PathStatusBackup => "PATH_STATUS_BACKUP"@,
        FrameTypeView::PathNewConnectionId => "PATH_NEW_CONNECTION_ID"@,
        FrameTypeView::PathRetireConnectionId => "PATH_RETIRE_CONNECTION_ID"@,
        FrameTypeView::PathsBlocked => "PATHS_BLOCKED"@,
        FrameTypeView::PathCidsBlocked => "PATH_CIDS_BLOCKED"@,
        FrameTypeView::MaxPathId => "MAX_PATH_ID"@,
        FrameTypeView::ConnectionClose => "CONNECTION_CLOSE"@,
        FrameTypeView::HandshakeDone => "HANDSHAKE_DONE"@,
        FrameTypeView::Datagram => "DATAGRAM"@,
        FrameTypeView::Custom(name) => unicode_upper(name),
    }
}

/// The short display name of a frame kind.
pub open spec fn short_name_of(f: FrameTypeView) -> Seq<char> {
    match f {
        FrameTypeView::Padding => "PAD"@,
        FrameTypeView::Ping => "PNG"@,
        FrameTypeView::Ack => "ACK"@,
        FrameTypeView::ResetStream => "RST"@,
        FrameTypeView::StopSending => "STP"@,
        FrameTypeView::Crypto => "CRY"@,
        FrameTypeView::NewToken => "TOK"@,
        FrameTypeView::Stream(id) => stream_short_name(id),
        FrameTypeView::MaxData => "MXD"@,
        FrameTypeView::MaxStreamData => "MXS"@,
        FrameTypeView::MaxStreams => "MXS"@,
        FrameTypeView::DataBlocked => "BLK"@,
        FrameTypeView::StreamDataBlocked => "SBK"@,
        FrameTypeView::StreamsBlocked => "SBK"@,
        FrameTypeView::NewConnectionId => "NCI"@,
        FrameTypeView::RetireConnectionId => "RCI"@,
        FrameTypeView::PathChallenge => "PCH"@,
        FrameTypeView::PathResponse => "PRS"@,
        FrameTypeView::PathAck => "PAK"@,
        FrameTypeView::PathAbandon => "PAB"@,
        FrameTypeView::PathStatusAvailable => "PSA"@,
        FrameTypeView::PathStatusBackup => "PSB"@,
        FrameTypeView::PathNewConnectionId => "PNC"@,
        FrameTypeView::PathRetireConnectionId => "PRC"@,
        FrameTypeView::PathsBlocked => "PBK"@,
        FrameTypeView::PathCidsBlocked => "PCB"@,
        FrameTypeView::MaxPathId => "MPI"@,
        FrameTypeView::ConnectionClose => "CLS"@,
        FrameTypeView::HandshakeDone => "HSD"@,
        FrameTypeView::Datagram => "DGM"@,
        FrameTypeView::Custom(name) => custom_short_name(name),
    }
}

/// Fits a name to the three to five characters of a short name: a longer
/// name keeps its first five characters, a shorter one is filled up with `-`.
pub open spec fn fit_short(s: Seq<char>) -> Seq<char> {
    if s.len() < 3 {
        s + Seq::new((3 - s.len()) as nat, |i: int| '-')
    } else {
        prefix(s, 5)
    }
}

/// The short name of a STREAM frame: `S` and the stream number with at
/// least two digits, cut to five characters.
pub open spec fn stream_short_name(id: u64) -> Seq<char> {
    if id < 10 {
        "S0"@ + decimal(id as nat)
    } else {
        prefix("S"@ + decimal(id as nat), 5)
    }
}

/// The short name of a custom frame: a hexadecimal type keeps its first
/// five characters as written; any other name gives the upper-case form of
/// its word-based core. Either is fitted to three to five characters.
pub open spec fn custom_short_name(name: Seq<char>) -> Seq<char> {
    if starts_with(name, "0x"@) {
        fit_short(prefix(name, 5))
    } else {
        fit_short(unicode_upper(short_core(name)))
    }
}

/// Whether `c` separates the words of a frame name.
pub open spec fn is_separator(c: char) -> bool {
    c == '_' || c == '-' || c == ' '
}

/// Whether a word of `s` begins at position `i`.
pub open spec fn word_starts_at(s: Seq<char>, i: int) -> bool {
    !is_separator(s[i]) && (i == 0 || is_separator(s[i - 1]))
}

/// The first character of every word of `s`, words being the maximal runs
/// of characters other than `_`, `-` and space.
pub open spec fn initials(s: Seq<char>) -> Seq<char>
    decreases s.len(),
{
    if s.len() == 0 {
        Seq::empty()
    } else {
        let rest = initials(s.drop_last());
        if word_starts_at(s, s.len() - 1) {
            rest.push(s.last())
        } else {
            rest
        }
    }
}

/// The alphanumeric characters of `s`, in order.
pub open spec fn alphanumerics(s: Seq<char>) -> Seq<char>
    decreases s.len(),
{
    if s.len() == 0 {
        Seq::empty()
    } else {
        let rest = alphanumerics(s.drop_last());
        if unicode_alphanumeric(s.last()) {
            rest.push(s.last())
        } else {
            rest
        }
    }
}

/// The core of a custom frame's short name, before upper-casing: a name of
/// several words gives the initials of the first five; a name of one word
/// its first five alphanumeric characters; a name without words its first
/// five characters.
pub open spec fn short_core(s: Seq<char>) -> Seq<char> {
    if initials(s).len() == 0 {
        prefix(s, 5)
    } else if initials(s).len() == 1 {
        prefix(alphanumerics(s), 5)
    } else {
        prefix(initials(s), 5)
    }
}

proof fn lemma_decimal_len(n: nat)
    ensures
        decimal(n).len() >= 1,
        n >= 10 ==> decimal(n).len() >= 2,
    decreases n,
{
    if n >= 10 {
        lemma_decimal_len(n / 10);
    }
}

/// Every short name has three to five characters.
pub proof fn short_names_fit(f: FrameTypeView)
    ensures
        3 <= short_name_of(f).len() <= 5,
{
    match f {
        FrameTypeView::Stream(id) => {
            lemma_decimal_len(id as nat);
            reveal_strlit("S0");
            reveal_strlit("S");
        },
        FrameTypeView::Custom(name) => {},
        _ => {
        reveal_strlit("PAD");
        reveal_strlit("PNG");
        reveal_strlit("ACK");
        reveal_strlit("RST");
        reveal_strlit("STP");
        reveal_strlit("CRY");
        reveal_strlit("TOK");
        reveal_strlit("MXD");
        reveal_strlit("MXS");
        reveal_strlit("BLK");
        reveal_strlit("SBK");
        reveal_strlit("NCI");
        reveal_strlit("RCI");
        reveal_strlit("PCH");
        reveal_strlit("PRS");
        reveal_strlit("PAK");
        reveal_strlit("PAB");
        reveal_strlit("PSA");
        reveal_strlit("PSB");
        reveal_strlit("PNC");
        reveal_strlit("PRC");
        reveal_strlit("PBK");
        reveal_strlit("PCB");
        reveal_strlit("MPI");
        reveal_strlit("CLS");
        reveal_strlit("HSD");
        reveal_strlit("DGM");
        },
    }
}

/// Fits a name to three to five characters.
fn fit_short_chars(v: &Vec<char>) -> (res: Vec<char>)
    ensures
        res@ == fit_short(v@),
        3 <= res@.len() <= 5,
{
    if v.len() < 3 {
        let mut res = v.clone();
        proof {
            assert(res@ =~= v@);
        }
        while res.len() < 3
            invariant
                v@.len() < 3,
                v@.len() <= res@.len() <= 3,
                res@ == v@ + Seq::new((res@.len() - v@.len()) as nat, |i: int| '-'),
            decreases 3 - res.len(),
        {
            res.push('-');
            proof {
                assert(res@ =~= v@ + Seq::new((res@.len() - v@.len()) as nat, |i: int| '-'));
            }
        }
        res
    } else {
        take_chars(v, 5)
    }
}

/// Derives a short name of three to five characters for a custom frame.
pub fn derive_short_name(name: &str) -> (res: String)
    ensures
        res@ == custom_short_name(name@),
        3 <= res@.len() <= 5,
{
    let chars = chars_of(name);
    let hex_prefix = chars_of("0x");
    if vec_starts_with(&chars, &hex_prefix) {
        let kept = take_chars(&chars, 5);
        let fitted = fit_short_chars(&kept);
        return string_from_chars(fitted);
    }
    let mut firsts: Vec<char> = Vec::new();
    let mut alnum: Vec<char> = Vec::new();
    let mut i: usize = 0;
    while i < chars.len()
        invariant
            i <= chars@.len(),
            firsts@ == initials(chars@.take(i as int)),
            alnum@ == alphanumerics(chars@.take(i as int)),
        decreases chars@.len() - i,
    {
        let c = chars[i];
        let sep = c == '_' || c == '-' || c == ' ';
        let prev_sep = i == 0 || chars[i - 1] == '_' || chars[i - 1] == '-' || chars[i - 1] == ' ';
        proof {
            let t = chars@.take(i + 1);
            assert(t.drop_last() =~= chars@.take(i as int));
            assert(t.last() == c);
            assert(word_starts_at(t, i as int) == (!sep && prev_sep));
        }
        if !sep && prev_sep {
            firsts.push(c);
        }
        if is_alphanumeric(c) {
            alnum.push(c);
        }
        i = i + 1;
    }
    proof {
        assert(chars@.take(chars@.len() as int) =~= chars@);
    }
    let core: Vec<char> = if firsts.len() == 0 {
        take_chars(&chars, 5)
    } else if firsts.len() == 1 {
        take_chars(&alnum, 5)
    } else {
        take_chars(&firsts, 5)
    };
    let core_string = string_from_chars(core);
    let upper = to_uppercase(core_string.as_str());
    let upper_chars = chars_of(upper.as_str());
    let fitted = fit_short_chars(&upper_chars);
    string_from_chars(fitted)
}

/// The short name of a STREAM frame.
fn stream_short(id: u64) -> (res: String)
    ensures
        res@ == stream_short_name(id),
        3 <= res@.len() <= 5,
{
    let d = u64_to_decimal(id);
    proof {
        lemma_decimal_len(id as nat);
    }
    if id < 10 {
        let mut v = chars_of("S0");
        proof {
            reveal_strlit("S0");
        }
        extend_chars(&mut v, &d);
        string_from_chars(v)
    } else {
        let mut v = chars_of("S");
        proof {
            reveal_strlit("S");
        }
        extend_chars(&mut v, &d);
        let kept = take_chars(&v, 5);
        string_from_chars(kept)
    }
}

impl FrameType {
    /// The kind of a frame.
    pub fn from_quic_frame(frame: &QuicFrame) -> (res: Self)
        ensures
            res@ == frame_type_of(*frame),
    {
        match frame {
            QuicFrame::Padding { .. } => FrameType::Padding,
            QuicFrame::Ping => FrameType::Ping,
            QuicFrame::Ack { .. } => FrameType::Ack,
            QuicFrame::ResetStream { .. } => FrameType::ResetStream,
            QuicFrame::StopSending { .. } => FrameType::StopSending,
            QuicFrame::Crypto { .. } => FrameType::Crypto,
            QuicFrame::NewToken => FrameType::NewToken,
            QuicFrame::Stream { stream_id, .. } => FrameType::Stream(*stream_id),
            QuicFrame::MaxData => FrameType::MaxData,
            QuicFrame::MaxStreamData { .. } => FrameType::MaxStreamData,
            QuicFrame::MaxStreams => FrameType::MaxStreams,
            QuicFrame::DataBlocked => FrameType::DataBlocked,
            QuicFrame::StreamDataBlocked { .. } => FrameType::StreamDataBlocked,
            QuicFrame::StreamsBlocked => FrameType::StreamsBlocked,
            QuicFrame::NewConnectionId => FrameType::NewConnectionId,
            QuicFrame::RetireConnectionId => FrameType::RetireConnectionId,
            QuicFrame::PathChallenge => FrameType::PathChallenge,
            QuicFrame::PathResponse => FrameType::PathResponse,
            QuicFrame::PathAck => FrameType::PathAck,
            QuicFrame::PathAbandon => FrameType::PathAbandon,
            QuicFrame::PathStatusAvailable => FrameType::PathStatusAvailable,
            QuicFrame::PathStatusBackup => FrameType::PathStatusBackup,
            QuicFrame::PathNewConnectionId => FrameType::PathNewConnectionId,
            QuicFrame::PathRetireConnectionId => FrameType::PathRetireConnectionId,
            QuicFrame::PathsBlocked => FrameType::PathsBlocked,
            QuicFrame::PathCidsBlocked => FrameType::PathCidsBlocked,
            QuicFrame::MaxPathId => FrameType::MaxPathId,
            QuicFrame::ConnectionClose => FrameType::ConnectionClose,
            QuicFrame::HandshakeDone => FrameType::HandshakeDone,
            QuicFrame::Datagram { .. } => FrameType::Datagram,
            QuicFrame::Unknown { frame_type_bytes, raw_data } => {
                let name = match raw_data {
                    Some(d) => d.clone(),
                    None => match frame_type_bytes {
                        Some(b) => {
                            let mut v = chars_of("0x");
                            let h = u64_to_hex_upper(*b);
                            extend_chars(&mut v, &h);
                            string_from_chars(v)
                        },
                        None => owned("Unknown"),
                    },
                };
                FrameType::Custom(name)
            },
        }
    }

    /// The full display name of the frame kind.
    pub fn display_name(&self) -> (res: String)
        ensures
            res@ == display_name_of(self@),
    {
        match self {
            FrameType::Padding => owned("PADDING"),
            FrameType::Ping => owned("PING"),
            FrameType::Ack => owned("ACK"),
            FrameType::ResetStream => owned("RESET_STREAM"),
            FrameType::StopSending => owned("STOP_SENDING"),
            FrameType::Crypto => owned("CRYPTO"),
            FrameType::NewToken => owned("NEW_TOKEN"),
            FrameType::Stream(id) => {
                let mut v = chars_of("STREAM(");
                let d = u64_to_decimal(*id);
                extend_chars(&mut v, &d);
                let close = chars_of(")");
                extend_chars(&mut v, &close);
                string_from_chars(v)
            },
            FrameType::MaxData => owned("MAX_DATA"),
            FrameType::MaxStreamData => owned("MAX_STREAM_DATA"),
            FrameType::MaxStreams => owned("MAX_STREAMS"),
            FrameType::DataBlocked => owned("DATA_BLOCKED"),
            FrameType::StreamDataBlocked => owned("STREAM_DATA_BLOCKED"),
            FrameType::StreamsBlocked => owned("STREAMS_BLOCKED"),
            FrameType::NewConnectionId => owned("NEW_CONNECTION_ID"),
            FrameType::RetireConnectionId => owned("RETIRE_CONNECTION_ID"),
            FrameType::PathChallenge => owned("PATH_CHALLENGE"),
            FrameType::PathResponse => owned("PATH_RESPONSE"),
            FrameType::PathAck => owned("PATH_ACK"),
            FrameType::PathAbandon => owned("PATH_ABANDON"),
            FrameType::PathStatusAvailable => owned("PATH_STATUS_AVAILABLE"),
            FrameType::PathStatusBackup => owned("PATH_STATUS_BACKUP"),
            FrameType::PathNewConnectionId => owned("PATH_NEW_CONNECTION_ID"),
            FrameType::PathRetireConnectionId => owned("PATH_RETIRE_CONNECTION_ID"),
            FrameType::PathsBlocked => owned("PATHS_BLOCKED"),
            FrameType::PathCidsBlocked => owned("PATH_CIDS_BLOCKED"),
            FrameType::MaxPathId => owned("MAX_PATH_ID"),
            FrameType::ConnectionClose => owned("CONNECTION_CLOSE"),
            FrameType::HandshakeDone => owned("HANDSHAKE_DONE"),
            FrameType::Datagram => owned("DATAGRAM"),
            FrameType::Custom(name) => to_uppercase(name.as_str()),
        }
    }

    /// A short display name of three to five characters for compact display.
    pub fn short_name(&self) -> (res: String)
        ensures
            res@ == short_name_of(self@),
            3 <= res@.len() <= 5,
    {
        proof {
            short_names_fit(self@);
        }
        match self {
            FrameType::Padding => owned("PAD"),
            FrameType::Ping => owned("PNG"),
            FrameType::Ack => owned("ACK"),
            FrameType::ResetStream => owned("RST"),
            FrameType::StopSending => owned("STP"),
            FrameType::Crypto => owned("CRY"),
            FrameType::NewToken => owned("TOK"),
            FrameType::Stream(id) => stream_short(*id),
            FrameType::MaxData => owned("MXD"),
            FrameType::MaxStreamData => owned("MXS"),
            FrameType::MaxStreams => owned("MXS"),
            FrameType::DataBlocked => owned("BLK"),
            FrameType::StreamDataBlocked => owned("SBK"),
            FrameType::StreamsBlocked => owned("SBK"),
            FrameType::NewConnectionId => owned("NCI"),
            FrameType::RetireConnectionId => owned("RCI"),
            FrameType::PathChallenge => owned("PCH"),
            FrameType::PathResponse => owned("PRS"),
            FrameType::PathAck => owned("PAK"),
            FrameType::PathAbandon => owned("PAB"),
            FrameType::PathStatusAvailable => owned("PSA"),
            FrameType::PathStatusBackup => owned("PSB"),
            FrameType::PathNewConnectionId => owned("PNC"),
            FrameType::PathRetireConnectionId => owned("PRC"),
            FrameType::PathsBlocked => owned("PBK"),
            FrameType::PathCidsBlocked => owned("PCB"),
            FrameType::MaxPathId => owned("MPI"),
            FrameType::ConnectionClose => owned("CLS"),
            FrameType::HandshakeDone => owned("HSD"),
            FrameType::Datagram => owned("DGM"),
            FrameType::Custom(name) => derive_short_name(name.as_str()),
        }
    }

    /// Whether the frame kind is STREAM.
    pub fn is_stream(&self) -> (res: bool)
        ensures
            res == (self@ is Stream),
    {
        match self {
            FrameType::Stream(_) => true,
            _ => false,
        }
    }
}

/// The stream that a frame concerns, for the frames that name one.
pub open spec fn frame_stream_id(f: QuicFrame) -> Option<u64> {
    match f {
        QuicFrame::Stream { stream_id, .. } => Some(stream_id),
        QuicFrame::MaxStreamData { stream_id } => Some(stream_id),
        QuicFrame::StreamDataBlocked { stream_id } => Some(stream_id),
        QuicFrame::ResetStream { stream_id } => Some(stream_id),
        QuicFrame::StopSending { stream_id } => Some(stream_id),
        _ => None,
    }
}

/// The raw length of a STREAM, CRYPTO or DATAGRAM frame, where the log gives it.
pub open spec fn frame_size(f: QuicFrame) -> Option<u64> {
    match f {
        QuicFrame::Stream { raw_length, .. } => raw_length,
        QuicFrame::Crypto { raw_length } => raw_length,
        QuicFrame::Datagram { raw_length } => raw_length,
        _ => None,
    }
}

/// The stream that a frame concerns, for the frames that name one.
pub fn get_frame_stream_id(frame: &QuicFrame) -> (res: Option<u64>)
    ensures
        res == frame_stream_id(*frame),
{
    match frame {
        QuicFrame::Stream { stream_id, .. } => Some(*stream_id),
        QuicFrame::MaxStreamData { stream_id } => Some(*stream_id),
        QuicFrame::StreamDataBlocked { stream_id } => Some(*stream_id),
        QuicFrame::ResetStream { stream_id } => Some(*stream_id),
        QuicFrame::StopSending { stream_id } => Some(*stream_id),
        _ => None,
    }
}

/// The raw length of a STREAM, CRYPTO or DATAGRAM frame, where the log gives it.
pub fn get_frame_size(frame: &QuicFrame) -> (res: Option<u64>)
    ensures
        res == frame_size(*frame),
{
    match frame {
        QuicFrame::Stream { raw_length, .. } => *raw_length,
        QuicFrame::Crypto { raw_length } => *raw_length,
        QuicFrame::Datagram { raw_length } => *raw_length,
        _ => None,
    }
}

/// The name by which qlog writes a packet number space.
pub open spec fn packet_type_name_of(t: PacketType) -> Seq<char> {
    match t {
        PacketType::Initial => "Initial"@,
        PacketType::Handshake => "Handshake"@,
        PacketType::ZeroRtt => "ZeroRtt"@,
        PacketType::OneRtt => "OneRtt"@,
        PacketType::Retry => "Retry"@,
        PacketType::VersionNegotiation => "VersionNegotiation"@,
        PacketType::StatelessReset => "StatelessReset"@,
        PacketType::Unknown => "Unknown"@,
    }
}

/// The name by which qlog writes a packet number space.
pub fn packet_type_name(t: PacketType) -> (res: &'static str)
    ensures
        res@ == packet_type_name_of(t),
{
    match t {
        PacketType::Initial => "Initial",
        PacketType::Handshake => "Handshake",
        PacketType::ZeroRtt => "ZeroRtt",
        PacketType::OneRtt => "OneRtt",
        PacketType::Retry => "Retry",
        PacketType::VersionNegotiation => "VersionNegotiation",
        PacketType::StatelessReset => "StatelessReset",
        PacketType::Unknown => "Unknown",
    }
}

/// The human-readable name of a packet type name.
pub open spec fn full_packet_type_of(s: Seq<char>) -> Seq<char> {
    if s == "Initial"@ {
        "Initial"@
    } else if s == "Handshake"@ {
        "Handshake"@
    } else if s == "ZeroRtt"@ {
        "0-RTT"@
    } else if s == "OneRtt"@ {
        "1-RTT"@
    } else {
        s
    }
}

/// The short display name of a packet type name.
pub open spec fn short_packet_type_of(s: Seq<char>) -> Seq<char> {
    if s == "Initial"@ {
        "I"@
    } else if s == "Handshake"@ {
        "H"@
    } else if s == "ZeroRtt"@ {
        "0R"@
    } else if s == "OneRtt"@ {
        "1R"@
    } else {
        prefix(s, 2)
    }
}

/// Converts a packet type name to its full human-readable name.
pub fn full_packet_type(pkt_type: &str) -> (res: String)
    ensures
        res@ == full_packet_type_of(pkt_type@),
{
    if str_is(pkt_type, "Initial") {
        owned("Initial")
    } else if str_is(pkt_type, "Handshake") {
        owned("Handshake")
    } else if str_is(pkt_type, "ZeroRtt") {
        owned("0-RTT")
    } else if str_is(pkt_type, "OneRtt") {
        owned("1-RTT")
    } else {
        owned(pkt_type)
    }
}

/// Converts a packet type name to its short display name.
pub fn short_packet_type(pkt_type: &str) -> (res: String)
    ensures
        res@ == short_packet_type_of(pkt_type@),
{
    if str_is(pkt_type, "Initial") {
        owned("I")
    } else if str_is(pkt_type, "Handshake") {
        owned("H")
    } else if str_is(pkt_type, "ZeroRtt") {
        owned("0R")
    } else if str_is(pkt_type, "OneRtt") {
        owned("1R")
    } else {
        let c = chars_of(pkt_type);
        let p = take_chars(&c, 2);
        string_from_chars(p)
    }
}


/// The spacing between neighbouring `f64` values around `b`.
pub open spec fn f64_unit(b: nat) -> nat {
    if b >= 0x8000_0000_0000_0000 {
        2048
    } else if b >= 0x4000_0000_0000_0000 {
        1024
    } else if b >= 0x2000_0000_0000_0000 {
        512
    } else if b >= 0x1000_0000_0000_0000 {
        256
    } else if b >= 0x0800_0000_0000_0000 {
        128
    } else if b >= 0x0400_0000_0000_0000 {
        64
    } else if b >= 0x0200_0000_0000_0000 {
        32
    } else if b >= 0x0100_0000_0000_0000 {
        16
    } else if b >= 0x0080_0000_0000_0000 {
        8
    } else if b >= 0x0040_0000_0000_0000 {
        4
    } else if b >= 0x0020_0000_0000_0000 {
        2
    } else {
        1
    }
}

/// The `f64` nearest to the integer `b` (ties to the even significand), as
/// an integer.
pub open spec fn as_f64(b: nat) -> nat {
    let u = f64_unit(b);
    let low = b % u;
    let base = (b - low) as nat;
    if u > 1 && (low > u / 2 || (low == u / 2 && (b / u) % 2 == 1)) {
        base + u
    } else {
        base
    }
}

/// `n / m` rounded to the nearest integer, ties to even.
pub open spec fn round_half_even_div(n: nat, m: nat) -> nat {
    let q = n / m;
    let r = n % m;
    if 2 * r > m || (2 * r == m && q % 2 == 1) {
        q + 1
    } else {
        q
    }
}

/// `x / unit` in decimal with `digits` (1 or 2) digits after the point,
/// rounded half to even.
pub open spec fn fixed_point(x: nat, unit: nat, digits: nat) -> Seq<char> {
    if digits == 1 {
        let v = round_half_even_div(x * 10, unit);
        decimal(v / 10) + seq!['.', digit_char(v % 10)]
    } else {
        let v = round_half_even_div(x * 100, unit);
        decimal(v / 100) + seq!['.', digit_char((v / 10) % 10), digit_char(v % 10)]
    }
}

/// A byte count in binary units: whole bytes below 1 KiB, else KiB, MiB or
/// GiB with two decimals.
pub open spec fn format_bytes_of(bytes: u64) -> Seq<char> {
    if bytes >= 0x4000_0000 {
        fixed_point(as_f64(bytes as nat), 0x4000_0000, 2) + " GiB"@
    } else if bytes >= 0x10_0000 {
        fixed_point(as_f64(bytes as nat), 0x10_0000, 2) + " MiB"@
    } else if bytes >= 0x400 {
        fixed_point(as_f64(bytes as nat), 0x400, 2) + " KiB"@
    } else {
        decimal(bytes as nat) + " B"@
    }
}

fn f64_unit_of(b: u64) -> (res: u128)
    ensures
        res == f64_unit(b as nat),
        res >= 1,
        res <= 2048,
{
    if b >= 0x8000_0000_0000_0000 {
        2048
    } else if b >= 0x4000_0000_0000_0000 {
        1024
    } else if b >= 0x2000_0000_0000_0000 {
        512
    } else if b >= 0x1000_0000_0000_0000 {
        256
    } else if b >= 0x0800_0000_0000_0000 {
        128
    } else if b >= 0x0400_0000_0000_0000 {
        64
    } else if b >= 0x0200_0000_0000_0000 {
        32
    } else if b >= 0x0100_0000_0000_0000 {
        16
    } else if b >= 0x0080_0000_0000_0000 {
        8
    } else if b >= 0x0040_0000_0000_0000 {
        4
    } else if b >= 0x0020_0000_0000_0000 {
        2
    } else {
        1
    }
}

/// The integer value of `b as f64`.
pub(crate) fn as_f64_value(b: u64) -> (res: u128)
    ensures
        res == as_f64(b as nat),
        res <= 0x1_0000_0000_0000_0800,
{
    let u = f64_unit_of(b);
    let x = b as u128;
    let low = x % u;
    proof {
        assert(low <= x && low < u) by (nonlinear_arith)
            requires
                u >= 1,
                low == x % u,
        ;
        assert((x / u) * u + low == x) by (nonlinear_arith)
            requires
                u >= 1,
                low == x % u,
        ;
    }
    let base = x - low;
    if u > 1 && (low > u / 2 || (low == u / 2 && (x / u) % 2 == 1)) {
        base + u
    } else {
        base
    }
}

/// `n / m` rounded to the nearest integer, ties to even.
fn round_half_even(n: u128, m: u128) -> (res: u128)
    requires
        m >= 2,
        m <= 0x1_0000_0000,
        n <= 0x100_0000_0000_0000_0000,
    ensures
        res == round_half_even_div(n as nat, m as nat),
{
    let q = n / m;
    let r = n % m;
    proof {
        assert(q <= n && r < m) by (nonlinear_arith)
            requires
                m >= 2,
                q == n / m,
                r == n % m,
        ;
    }
    if 2 * r > m || (2 * r == m && q % 2 == 1) {
        q + 1
    } else {
        q
    }
}

/// Formats `n` in decimal.
pub fn u128_to_decimal(n: u128) -> (res: Vec<char>)
    ensures
        res@ == decimal(n as nat),
{
    let mut digits: Vec<char> = Vec::new();
    let mut rest: u128 = n;
    while rest >= 10
        invariant
            decimal(n as nat) == decimal(rest as nat) + digits@,
        decreases rest,
    {
        let d = (rest % 10) as u8;
        let c = (d + 48) as char;
        let ghost old_digits = digits@;
        digits.insert(0, c);
        proof {
            assert(digits@ == seq![c] + old_digits);
            assert(decimal(rest as nat) == decimal((rest / 10) as nat).push(c));
            assert(decimal((rest / 10) as nat) + digits@ == decimal(rest as nat) + old_digits);
        }
        rest = rest / 10;
    }
    let c = ((rest as u8) + 48) as char;
    digits.insert(0, c);
    digits
}

/// `x / unit` in decimal with `digits` (1 or 2) digits after the point.
pub fn fixed_point_chars(x: u128, unit: u128, digits: u8) -> (res: Vec<char>)
    requires
        x <= 0x1_0000_0000_0000_0800,
        unit >= 2,
        unit <= 0x1_0000_0000,
        digits == 1 || digits == 2,
    ensures
        res@ == fixed_point(x as nat, unit as nat, digits as nat),
{
    if digits == 1 {
        let v = round_half_even(x * 10, unit);
        let mut out = u128_to_decimal(v / 10);
        out.push('.');
        let d = (v % 10) as u8;
        out.push((d + 48) as char);
        out
    } else {
        let v = round_half_even(x * 100, unit);
        let mut out = u128_to_decimal(v / 100);
        out.push('.');
        let d1 = ((v / 10) % 10) as u8;
        out.push((d1 + 48) as char);
        let d2 = (v % 10) as u8;
        out.push((d2 + 48) as char);
        proof {
            assert(out@ =~= decimal((v / 100) as nat) + seq!['.', digit_char(((v / 10) % 10) as nat), digit_char((v % 10) as nat)]);
        }
        out
    }
}

/// Formats a byte count in binary units (B, KiB, MiB, GiB).
pub fn format_bytes(bytes: u64) -> (res: String)
    ensures
        res@ == format_bytes_of(bytes),
{
    let mut out: Vec<char>;
    let suffix: &str;
    if bytes >= 0x4000_0000 {
        out = fixed_point_chars(as_f64_value(bytes), 0x4000_0000, 2);
        suffix = " GiB";
    } else if bytes >= 0x10_0000 {
        out = fixed_point_chars(as_f64_value(bytes), 0x10_0000, 2);
        suffix = " MiB";
    } else if bytes >= 0x400 {
        out = fixed_point_chars(as_f64_value(bytes), 0x400, 2);
        suffix = " KiB";
    } else {
        out = u64_to_decimal(bytes);
        suffix = " B";
    }
    let tail = chars_of(suffix);
    extend_chars(&mut out, &tail);
    string_from_chars(out)
}

} // verus!
