//! Framing of qlog files: which of the three serializations a file uses, how
//! its records are cut apart, and how event records are normalized before
//! they are parsed, and which parsed records make up the trace. Parsing the
//! JSON of each record is the caller's part.
use crate::model::{Event, EventClass, QlogData};
use crate::text::{chars_of, contains, extend_chars, is_whitespace, occurs_at, owned, str_is, string_from_chars, to_lowercase, unicode_lower, unicode_white_space, vec_contains};
use convert_case::{Case, Casing};
use vstd::prelude::*;

verus! {

/// The record separator of JSON text sequences (RFC 7464).
pub const RECORD_SEPARATOR: char = '\u{1E}';

/// The serialization of a qlog file.
#[derive(Debug, Clone, Copy, PartialEq, Eq, Structural)]
pub enum LogFormat {
    /// RFC 7464 JSON text sequences: records introduced by U+001E.
    JsonSeq,
    /// Newline-delimited JSON whose first line names the qlog format.
    NdJson,
    /// One JSON document.
    Json,
}

/// Why a file's records could not be read.
#[derive(Debug, Clone, Copy, PartialEq, Eq, Structural)]
pub enum LoadError {
    /// The file holds no record at all, so not even the trace header.
    EmptyFile,
    /// The trace header does not parse.
    BadHeader,
}

impl LoadError {
    /// The message shown for the error.
    pub fn message(&self) -> (res: &'static str)
        ensures
            res@ == match self {
                LoadError::EmptyFile => "Empty JSON-SEQ file"@,
                LoadError::BadHeader => "Failed to parse qlog trace header"@,
            },
    {
        match self {
            LoadError::EmptyFile => "Empty JSON-SEQ file",
            LoadError::BadHeader => "Failed to parse qlog trace header",
        }
    }
}

/// The records of a sequential qlog file: the trace header, then one record
/// per event, each normalized and ready to be parsed.
pub struct QlogRecords {
    pub header: String,
    pub events: Vec<String>,
}

/// The pieces of `s` between the occurrences of `sep`, as `str::split`
/// yields them: one more piece than there are separators.
pub open spec fn split_on(s: Seq<char>, sep: char) -> Seq<Seq<char>>
    decreases s.len(),
{
    if s.len() == 0 {
        seq![Seq::empty()]
    } else {
        let p = split_on(s.drop_last(), sep);
        if s.last() == sep {
            p.push(Seq::empty())
        } else {
            p.update(p.len() - 1, p.last().push(s.last()))
        }
    }
}

/// A piece without its trailing carriage return, if it has one.
pub open spec fn strip_cr(p: Seq<char>) -> Seq<char> {
    if p.len() > 0 && p.last() == '\r' {
        p.drop_last()
    } else {
        p
    }
}

/// A string without its leading white space.
pub open spec fn trim_start(p: Seq<char>) -> Seq<char>
    decreases p.len(),
{
    if p.len() > 0 && unicode_white_space(p[0]) {
        trim_start(p.drop_first())
    } else {
        p
    }
}

/// A string without its trailing white space.
pub open spec fn trim_end(p: Seq<char>) -> Seq<char>
    decreases p.len(),
{
    if p.len() > 0 && unicode_white_space(p.last()) {
        trim_end(p.drop_last())
    } else {
        p
    }
}

/// A string without its leading and trailing white space.
pub open spec fn trim(p: Seq<char>) -> Seq<char> {
    trim_end(trim_start(p))
}

/// A string without its leading line feeds.
pub open spec fn trim_leading_newlines(p: Seq<char>) -> Seq<char>
    decreases p.len(),
{
    if p.len() > 0 && p[0] == '\n' {
        trim_leading_newlines(p.drop_first())
    } else {
        p
    }
}

/// The non-empty strings of `ps`, in order.
pub open spec fn keep_nonempty(ps: Seq<Seq<char>>) -> Seq<Seq<char>>
    decreases ps.len(),
{
    if ps.len() == 0 {
        Seq::empty()
    } else {
        let r = keep_nonempty(ps.drop_last());
        if ps.last().len() > 0 {
            r.push(ps.last())
        } else {
            r
        }
    }
}

/// The records of an NDJSON file: its non-empty lines, where a line ends at
/// a line feed or at a carriage return and line feed.
pub open spec fn ndjson_records_of(s: Seq<char>) -> Seq<Seq<char>> {
    let ps = split_on(s, '\n');
    keep_nonempty(ps.drop_last().map_values(|p: Seq<char>| strip_cr(p)).push(ps.last()))
}

/// The records of a JSON text sequence: the pieces between separators,
/// trimmed, and non-empty.
pub open spec fn json_seq_records_of(s: Seq<char>) -> Seq<Seq<char>> {
    keep_nonempty(split_on(s, RECORD_SEPARATOR).map_values(|p: Seq<char>| trim(p)))
}

/// `s` with every occurrence of `pat`, from left to right and without
/// overlap, replaced by `rep`.
pub open spec fn replace_all(s: Seq<char>, pat: Seq<char>, rep: Seq<char>) -> Seq<char>
    recommends
        pat.len() > 0,
    decreases s.len(),
{
    if s.len() == 0 || pat.len() == 0 {
        s
    } else if s.len() >= pat.len() && s.take(pat.len() as int) == pat {
        rep + replace_all(s.skip(pat.len() as int), pat, rep)
    } else {
        seq![s[0]] + replace_all(s.drop_first(), pat, rep)
    }
}

/// An event record with the event names of qlog 0.3 moved to the `quic`
/// namespace: `connectivity:` and `transport:` events become `quic:` events,
/// `recovery:` events become `quic:recovery_` events.
pub open spec fn normalized(s: Seq<char>) -> Seq<char> {
    replace_all(
        replace_all(
            replace_all(s, "\"name\":\"connectivity:"@, "\"name\":\"quic:"@),
            "\"name\":\"transport:"@,
            "\"name\":\"quic:"@,
        ),
        "\"name\":\"recovery:"@,
        "\"name\":\"quic:recovery_"@,
    )
}

/// The serialization of a file: a leading record separator marks a JSON
/// text sequence; a first line that mentions `"qlog_format"` marks NDJSON.
pub open spec fn format_of(s: Seq<char>) -> LogFormat {
    if s.len() > 0 && s[0] == RECORD_SEPARATOR {
        LogFormat::JsonSeq
    } else if contains(split_on(s, '\n')[0], "\"qlog_format\""@) {
        LogFormat::NdJson
    } else {
        LogFormat::Json
    }
}

/// What a sequential file holds once its records are cut apart.
pub open spec fn records_result(records: Seq<Seq<char>>, res: Result<QlogRecords, LoadError>) -> bool {
    if records.len() == 0 {
        res == Err::<QlogRecords, LoadError>(LoadError::EmptyFile)
    } else {
        &&& res is Ok
        &&& res->Ok_0.header@ == trim(records[0])
        &&& res->Ok_0.events@.len() == records.len() - 1
        &&& forall|j: int| 0 <= j < records.len() - 1 ==> (#[trigger] res->Ok_0.events@[j])@ == normalized(
            trim_leading_newlines(records[j + 1]),
        )
    }
}

/// The values of the records that parsed, in record order.
pub open spec fn parsed_values<T>(parsed: Seq<Option<T>>) -> Seq<T>
    decreases parsed.len(),
{
    if parsed.len() == 0 {
        Seq::empty()
    } else {
        let before = parsed_values(parsed.drop_last());
        match parsed.last() {
            Some(v) => before.push(v),
            None => before,
        }
    }
}

/// The events of a sequential file, given whether its header parsed and
/// what each event record parsed to: a header that does not parse refuses
/// the file; otherwise the events that parsed are kept in record order and
/// the others are dropped.
pub fn assemble_events<T>(header_parsed: bool, parsed: Vec<Option<T>>) -> (res: Result<Vec<T>, LoadError>)
    ensures
        !header_parsed ==> res == Err::<Vec<T>, LoadError>(LoadError::BadHeader),
        header_parsed ==> res is Ok && res->Ok_0@ == parsed_values(parsed@),
{
    if !header_parsed {
        return Err(LoadError::BadHeader);
    }
    let ghost all = parsed@;
    let mut parsed = parsed;
    let mut events: Vec<T> = Vec::new();
    let mut i: usize = 0;
    while i < parsed.len()
        invariant
            i <= parsed@.len(),
            parsed@.len() == all.len(),
            forall|k: int| i <= k < all.len() ==> parsed@[k] == all[k],
            events@ == parsed_values(all.take(i as int)),
        decreases parsed@.len() - i,
    {
        let mut slot: Option<T> = None;
        parsed.set_and_swap(i, &mut slot);
        proof {
            assert(all.take(i + 1).drop_last() =~= all.take(i as int));
        }
        if let Some(v) = slot {
            events.push(v);
        }
        i = i + 1;
    }
    proof {
        assert(all.take(i as int) =~= all);
    }
    Ok(events)
}

proof fn lemma_split_nonempty(s: Seq<char>, sep: char)
    ensures
        split_on(s, sep).len() >= 1,
    decreases s.len(),
{
    if s.len() > 0 {
        lemma_split_nonempty(s.drop_last(), sep);
    }
}

/// The pieces of `s` between occurrences of `sep`.
fn split_pieces(s: &Vec<char>, sep: char) -> (res: Vec<Vec<char>>)
    ensures
        res@.len() == split_on(s@, sep).len(),
        forall|j: int| 0 <= j < res@.len() ==> (#[trigger] res@[j])@ == split_on(s@, sep)[j],
{
    let mut done: Vec<Vec<char>> = Vec::new();
    let mut cur: Vec<char> = Vec::new();
    let mut i: usize = 0;
    proof {
        assert(s@.take(0) =~= Seq::<char>::empty());
    }
    while i < s.len()
        invariant
            i <= s@.len(),
            split_on(s@.take(i as int), sep).len() == done@.len() + 1,
            forall|j: int| 0 <= j < done@.len() ==> (#[trigger] done@[j])@ == split_on(s@.take(i as int), sep)[j],
            cur@ == split_on(s@.take(i as int), sep).last(),
        decreases s@.len() - i,
    {
        let c = s[i];
        proof {
            assert(s@.take(i + 1).drop_last() =~= s@.take(i as int));
            lemma_split_nonempty(s@.take(i as int), sep);
        }
        if c == sep {
            let piece = cur;
            done.push(piece);
            cur = Vec::new();
        } else {
            cur.push(c);
        }
        i = i + 1;
    }
    proof {
        assert(s@.take(i as int) =~= s@);
    }
    done.push(cur);
    done
}

proof fn lemma_trim_start_step(p: Seq<char>, i: int)
    requires
        0 <= i < p.len(),
        unicode_white_space(p[i]),
    ensures
        trim_start(p.skip(i)) == trim_start(p.skip(i + 1)),
{
    assert(p.skip(i).drop_first() =~= p.skip(i + 1));
}

proof fn lemma_trim_end_step(p: Seq<char>, j: int)
    requires
        0 < j <= p.len(),
        unicode_white_space(p[j - 1]),
    ensures
        trim_end(p.take(j)) == trim_end(p.take(j - 1)),
{
    assert(p.take(j).drop_last() =~= p.take(j - 1));
}

/// `p` without its leading and trailing white space.
fn trim_chars(p: &Vec<char>) -> (res: Vec<char>)
    ensures
        res@ == trim(p@),
{
    let mut a: usize = 0;
    proof {
        assert(p@.skip(0) =~= p@);
    }
    while a < p.len() && is_whitespace(p[a])
        invariant
            a <= p@.len(),
            trim_start(p@.skip(a as int)) == trim_start(p@),
        decreases p@.len() - a,
    {
        proof {
            lemma_trim_start_step(p@, a as int);
        }
        a = a + 1;
    }
    let ghost t = p@.skip(a as int);
    assert(trim_start(t) == t);
    let mut b: usize = p.len();
    proof {
        assert(t.take(t.len() as int) =~= t);
    }
    while b > a && is_whitespace(p[b - 1])
        invariant
            a <= b <= p@.len(),
            t == p@.skip(a as int),
            trim_end(t.take(b - a)) == trim_end(t),
        decreases b,
    {
        proof {
            assert(t[b - a - 1] == p@[b - 1]);
            lemma_trim_end_step(t, b - a);
        }
        b = b - 1;
    }
    proof {
        assert(trim_end(t.take(b - a)) == t.take(b - a));
    }
    let mut res: Vec<char> = Vec::new();
    let mut k: usize = a;
    while k < b
        invariant
            a <= k <= b <= p@.len(),
            t == p@.skip(a as int),
            res@ == t.take(k - a),
        decreases b - k,
    {
        res.push(p[k]);
        proof {
            assert(res@ =~= t.take(k + 1 - a));
        }
        k = k + 1;
    }
    res
}

/// `p` without its leading line feeds.
fn trim_newlines_chars(p: &Vec<char>) -> (res: Vec<char>)
    ensures
        res@ == trim_leading_newlines(p@),
{
    let mut a: usize = 0;
    proof {
        assert(p@.skip(0) =~= p@);
    }
    while a < p.len() && p[a] == '\n'
        invariant
            a <= p@.len(),
            trim_leading_newlines(p@.skip(a as int)) == trim_leading_newlines(p@),
        decreases p@.len() - a,
    {
        proof {
            assert(p@.skip(a as int).drop_first() =~= p@.skip(a + 1));
        }
        a = a + 1;
    }
    let mut res: Vec<char> = Vec::new();
    let mut k: usize = a;
    while k < p.len()
        invariant
            a <= k <= p@.len(),
            res@ == p@.subrange(a as int, k as int),
        decreases p@.len() - k,
    {
        res.push(p[k]);
        proof {
            assert(res@ =~= p@.subrange(a as int, k + 1));
        }
        k = k + 1;
    }
    proof {
        assert(res@ =~= p@.skip(a as int));
    }
    res
}

/// `s` with every occurrence of `pat` replaced by `rep`.
fn replace_chars(s: &Vec<char>, pat: &Vec<char>, rep: &Vec<char>) -> (res: Vec<char>)
    requires
        pat@.len() > 0,
    ensures
        res@ == replace_all(s@, pat@, rep@),
{
    let mut out: Vec<char> = Vec::new();
    let mut i: usize = 0;
    proof {
        assert(s@.skip(0) =~= s@);
    }
    while i < s.len()
        invariant
            i <= s@.len(),
            pat@.len() > 0,
            out@ + replace_all(s@.skip(i as int), pat@, rep@) == replace_all(s@, pat@, rep@),
        decreases s@.len() - i,
    {
        let ghost rest = s@.skip(i as int);
        let matched = occurs_at(s, pat, i);
        proof {
            if rest.len() >= pat@.len() {
                assert(rest.take(pat@.len() as int) =~= s@.subrange(i as int, i + pat@.len()));
            }
        }
        if matched {
            proof {
                assert(rest.take(pat@.len() as int) =~= pat@);
                assert(rest.skip(pat@.len() as int) =~= s@.skip(i + pat@.len()));
            }
            let ghost before = out@;
            let mut k: usize = 0;
            while k < rep.len()
                invariant
                    k <= rep@.len(),
                    out@ == before + rep@.take(k as int),
                decreases rep@.len() - k,
            {
                out.push(rep[k]);
                proof {
                    assert(out@ =~= before + rep@.take(k + 1));
                }
                k = k + 1;
            }
            proof {
                assert(rep@.take(rep@.len() as int) =~= rep@);
                assert(out@ + replace_all(s@.skip(i + pat@.len()), pat@, rep@) =~= before + (rep@ + replace_all(
                    rest.skip(pat@.len() as int),
                    pat@,
                    rep@,
                )));
            }
            i = i + pat.len();
        } else {
            let ghost before = out@;
            out.push(s[i]);
            proof {
                assert(rest.drop_first() =~= s@.skip(i + 1));
                assert(out@ + replace_all(s@.skip(i + 1), pat@, rep@) =~= before + (seq![rest[0]] + replace_all(
                    rest.drop_first(),
                    pat@,
                    rep@,
                )));
            }
            i = i + 1;
        }
    }
    proof {
        assert(s@.skip(i as int) =~= Seq::<char>::empty());
        assert(out@ + Seq::<char>::empty() =~= out@);
    }
    out
}

/// The serialization of a file's content.
pub fn detect_format(content: &str) -> (res: LogFormat)
    ensures
        res == format_of(content@),
{
    let s = chars_of(content);
    if s.len() > 0 && s[0] == RECORD_SEPARATOR {
        return LogFormat::JsonSeq;
    }
    let pieces = split_pieces(&s, '\n');
    proof {
        lemma_split_nonempty(s@, '\n');
    }
    let pat = chars_of("\"qlog_format\"");
    if vec_contains(&pieces[0], &pat) {
        LogFormat::NdJson
    } else {
        LogFormat::Json
    }
}

/// convert_case's snake case of a string.
pub uninterp spec fn snake_case(s: Seq<char>) -> Seq<char>;

/// Calls `Casing::to_case` of convert_case with `Case::Snake`.
/// Claims only that the result is the snake case of `s`, a function of `s`
/// alone; what that case is, convert_case's own rules decide.
#[verifier::external_body]
fn to_snake_case(s: &str) -> (res: String)
    ensures
        res@ == snake_case(s@),
{
    s.to_case(Case::Snake)
}

/// The displayed name of an event: its namespace, a colon and the snake case
/// of its kind; `none` for an event without a type.
pub open spec fn event_name_of(class: EventClass) -> Seq<char> {
    match class {
        EventClass::Quic(kind) => "quic:"@ + snake_case(kind@),
        EventClass::Http3(kind) => "h3:"@ + snake_case(kind@),
        EventClass::LogLevel(kind) => "loglevel:"@ + snake_case(kind@),
        EventClass::Unclassified => "none"@,
    }
}

/// The displayed name of an event of class `class`, given the snake case of
/// its kind.
pub fn qualified_event_name(class: &EventClass, snake: &str) -> (res: String)
    ensures
        res@ == match class {
            EventClass::Quic(_) => "quic:"@ + snake@,
            EventClass::Http3(_) => "h3:"@ + snake@,
            EventClass::LogLevel(_) => "loglevel:"@ + snake@,
            EventClass::Unclassified => "none"@,
        },
{
    let prefix: &str = match class {
        EventClass::Quic(_) => "quic:",
        EventClass::Http3(_) => "h3:",
        EventClass::LogLevel(_) => "loglevel:",
        EventClass::Unclassified => {
            return owned("none");
        },
    };
    let mut out = chars_of(prefix);
    let tail = chars_of(snake);
    extend_chars(&mut out, &tail);
    string_from_chars(out)
}

/// Whether a file extension marks a qlog file: `qlog`, `json` or `sqlog`,
/// whatever the case of its letters.
pub open spec fn is_qlog_extension_of(ext: Seq<char>) -> bool {
    let l = unicode_lower(ext);
    l == "qlog"@ || l == "json"@ || l == "sqlog"@
}

/// Whether a file found in a directory is loaded, by its extension.
pub fn is_qlog_extension(ext: &str) -> (res: bool)
    ensures
        res == is_qlog_extension_of(ext@),
{
    let lower = to_lowercase(ext);
    let l = lower.as_str();
    str_is(l, "qlog") || str_is(l, "json") || str_is(l, "sqlog")
}

/// The file selected after closing file `closed` of `count` open files:
/// the same position, moved back to the last file where it would fall past
/// the end. Closing a file that is not open changes nothing.
pub fn selected_file_after_close(count: usize, selected: usize, closed: usize) -> (res: usize)
    ensures
        res == if closed < count && selected >= count - 1 && count - 1 > 0 {
            (count - 2) as usize
        } else {
            selected
        },
{
    if closed < count {
        let remaining = count - 1;
        if selected >= remaining && remaining > 0 {
            return remaining - 1;
        }
    }
    selected
}

impl QlogData {
    /// The displayed name of an event, such as `quic:packet_sent`.
    pub fn get_event_name(&self, event: &Event) -> (res: String)
        ensures
            res@ == event_name_of(event.class),
    {
        match &event.class {
            EventClass::Quic(kind) | EventClass::Http3(kind) | EventClass::LogLevel(kind) => {
                let snake = to_snake_case(kind.as_str());
                qualified_event_name(&event.class, snake.as_str())
            },
            EventClass::Unclassified => qualified_event_name(&event.class, ""),
        }
    }

    /// Moves the event names of qlog 0.3 into the `quic` namespace.
    pub fn normalize_event_namespace(line: &str) -> (res: String)
        ensures
            res@ == normalized(line@),
    {
        let s = chars_of(line);
        let p1 = chars_of("\"name\":\"connectivity:");
        let p2 = chars_of("\"name\":\"transport:");
        let p3 = chars_of("\"name\":\"recovery:");
        let q = chars_of("\"name\":\"quic:");
        let q3 = chars_of("\"name\":\"quic:recovery_");
        proof {
            reveal_strlit("\"name\":\"connectivity:");
            reveal_strlit("\"name\":\"transport:");
            reveal_strlit("\"name\":\"recovery:");
        }
        let a = replace_chars(&s, &p1, &q);
        let b = replace_chars(&a, &p2, &q);
        let c = replace_chars(&b, &p3, &q3);
        string_from_chars(c)
    }

    /// The records of an NDJSON file.
    pub fn ndjson_records(ndjson: &str) -> (res: Vec<String>)
        ensures
            res@.len() == ndjson_records_of(ndjson@).len(),
            forall|j: int| 0 <= j < res@.len() ==> (#[trigger] res@[j])@ == ndjson_records_of(ndjson@)[j],
    {
        let s = chars_of(ndjson);
        let pieces = split_pieces(&s, '\n');
        let ghost ps = split_on(s@, '\n');
        let ghost lines = ps.drop_last().map_values(|p: Seq<char>| strip_cr(p)).push(ps.last());
        proof {
            lemma_split_nonempty(s@, '\n');
        }
        let mut res: Vec<String> = Vec::new();
        let mut j: usize = 0;
        while j < pieces.len()
            invariant
                j <= pieces@.len(),
                pieces@.len() == ps.len(),
                ps.len() >= 1,
                ps == split_on(s@, '\n'),
                lines == ps.drop_last().map_values(|p: Seq<char>| strip_cr(p)).push(ps.last()),
                forall|k: int| 0 <= k < pieces@.len() ==> (#[trigger] pieces@[k])@ == ps[k],
                res@.len() == keep_nonempty(lines.take(j as int)).len(),
                forall|k: int| 0 <= k < res@.len() ==> (#[trigger] res@[k])@ == keep_nonempty(lines.take(j as int))[k],
            decreases pieces@.len() - j,
        {
            let p = &pieces[j];
            let mut line: Vec<char> = p.clone();
            if j + 1 < pieces.len() && line.len() > 0 && line[line.len() - 1] == '\r' {
                line.pop();
            }
            proof {
                assert(line@ == lines[j as int]);
                assert(lines.take(j + 1).drop_last() =~= lines.take(j as int));
            }
            if line.len() > 0 {
                res.push(string_from_chars(line));
            }
            j = j + 1;
        }
        proof {
            assert(lines.take(j as int) =~= lines);
        }
        res
    }

    /// The records of a JSON text sequence.
    pub fn json_seq_records(json_seq: &str) -> (res: Vec<String>)
        ensures
            res@.len() == json_seq_records_of(json_seq@).len(),
            forall|j: int| 0 <= j < res@.len() ==> (#[trigger] res@[j])@ == json_seq_records_of(json_seq@)[j],
    {
        let s = chars_of(json_seq);
        let pieces = split_pieces(&s, RECORD_SEPARATOR);
        let ghost ps = split_on(s@, RECORD_SEPARATOR);
        let ghost trimmed = ps.map_values(|p: Seq<char>| trim(p));
        let mut res: Vec<String> = Vec::new();
        let mut j: usize = 0;
        while j < pieces.len()
            invariant
                j <= pieces@.len(),
                pieces@.len() == ps.len(),
                ps == split_on(s@, RECORD_SEPARATOR),
                trimmed == ps.map_values(|p: Seq<char>| trim(p)),
                forall|k: int| 0 <= k < pieces@.len() ==> (#[trigger] pieces@[k])@ == ps[k],
                res@.len() == keep_nonempty(trimmed.take(j as int)).len(),
                forall|k: int| 0 <= k < res@.len() ==> (#[trigger] res@[k])@ == keep_nonempty(trimmed.take(j as int))[k],
            decreases pieces@.len() - j,
        {
            let t = trim_chars(&pieces[j]);
            proof {
                assert(t@ == trimmed[j as int]);
                assert(trimmed.take(j + 1).drop_last() =~= trimmed.take(j as int));
            }
            if t.len() > 0 {
                res.push(string_from_chars(t));
            }
            j = j + 1;
        }
        proof {
            assert(trimmed.take(j as int) =~= trimmed);
        }
        res
    }

    /// Cuts the trace header from the event records: the header trimmed, each
    /// event record without leading line feeds and normalized. A file with no
    /// record is refused.
    pub fn from_json_lines(records: &Vec<String>) -> (res: Result<QlogRecords, LoadError>)
        ensures
            records_result(records@.map_values(|r: String| r@), res),
    {
        let ghost rs = records@.map_values(|r: String| r@);
        if records.len() == 0 {
            return Err(LoadError::EmptyFile);
        }
        let first = chars_of(records[0].as_str());
        let header = string_from_chars(trim_chars(&first));
        let mut events: Vec<String> = Vec::new();
        let mut j: usize = 1;
        while j < records.len()
            invariant
                1 <= j <= records@.len(),
                rs == records@.map_values(|r: String| r@),
                events@.len() == j - 1,
                forall|k: int| 0 <= k < j - 1 ==> (#[trigger] events@[k])@ == normalized(trim_leading_newlines(rs[k + 1])),
            decreases records@.len() - j,
        {
            let c = chars_of(records[j].as_str());
            let t = trim_newlines_chars(&c);
            let n = QlogData::normalize_event_namespace(string_from_chars(t).as_str());
            events.push(n);
            j = j + 1;
        }
        Ok(QlogRecords { header, events })
    }

    /// The records of an NDJSON file, cut into header and events.
    pub fn from_ndjson(ndjson: &str) -> (res: Result<QlogRecords, LoadError>)
        ensures
            records_result(ndjson_records_of(ndjson@), res),
    {
        let records = QlogData::ndjson_records(ndjson);
        proof {
            assert(records@.map_values(|r: String| r@) =~= ndjson_records_of(ndjson@));
        }
        QlogData::from_json_lines(&records)
    }

    /// The records of a JSON text sequence, cut into header and events.
    pub fn from_json_seq(json_seq: &str) -> (res: Result<QlogRecords, LoadError>)
        ensures
            records_result(json_seq_records_of(json_seq@), res),
    {
        let records = QlogData::json_seq_records(json_seq);
        proof {
            assert(records@.map_values(|r: String| r@) =~= json_seq_records_of(json_seq@));
        }
        QlogData::from_json_lines(&records)
    }
}

} // verus!
