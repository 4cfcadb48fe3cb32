//! The portsmith line-based trace format (v1): one record per line,
//! `V1 <ts_nanos> <dir> <session> <proto> <len> <base64 payload>`.
//! Lines that are empty or start with '#' are comments.

use vstd::prelude::*;
use vstd::string::StringSliceAdditionalSpecFns;
use vstd::utf8::encode_utf8;
pub use crate::base64::{base64_decode, base64_encode};
use crate::base64::{
    b64_decode_spec, b64_encode_spec, b64_error_text, is_b64_text_char, law_base64_round_trip,
    law_base64_text_shape, Base64Error,
};
use crate::std_text::{debug_str, str_shown};
use crate::text::{
    decimal_text, int_error_text, int_text, is_digit, law_int_text_round_trip,
    lemma_decimal_digits, lemma_parse_in_range, parse_i64, parse_integer, parse_usize, push_i64, push_usize,
    IntErrorKind,
};

verus! {

/// Recommended first line of a trace file.
pub const MAGIC: &'static str = "#portsmith-trace v1";

/// Which side of a session produced a record.
#[derive(Debug, Clone, Copy, PartialEq, Eq, Structural)]
pub enum Direction {
    /// client -> server
    Request,
    /// server -> client
    Response,
}

impl Direction {
    /// The character that stands for the direction in a trace line.
    pub open spec fn symbol_of(self) -> char {
        match self {
            Direction::Request => '>',
            Direction::Response => '<',
        }
    }

    /// The character that stands for the direction in a trace line: '>' for
    /// a request, '<' for a response.
    pub fn symbol(&self) -> (c: char)
        ensures
            c == self.symbol_of(),
    {
        match self {
            Direction::Request => '>',
            Direction::Response => '<',
        }
    }

    /// The direction as text, as a trace line writes it.
    pub fn to_string(&self) -> (s: String)
        ensures
            s@ == seq![self.symbol_of()],
    {
        let mut s = String::new();
        s.push(self.symbol());
        s
    }
}

/// A single captured message.
#[derive(Debug, Clone, PartialEq, Eq)]
pub struct Record {
    pub ts_nanos: i64,
    pub dir: Direction,
    pub session: String,
    pub proto: String,
    pub payload: Vec<u8>,
}

/// The content of a record, as mathematical values.
pub struct RecordView {
    pub ts_nanos: i64,
    pub dir: Direction,
    pub session: Seq<char>,
    pub proto: Seq<char>,
    pub payload: Seq<u8>,
}

impl View for Record {
    type V = RecordView;

    open spec fn view(&self) -> RecordView {
        RecordView {
            ts_nanos: self.ts_nanos,
            dir: self.dir,
            session: self.session@,
            proto: self.proto@,
            payload: self.payload@,
        }
    }
}

/// The trace line of a record (without a line break).
pub open spec fn encode_spec(r: RecordView) -> Seq<char> {
    seq!['V', '1', ' '] + int_text(r.ts_nanos as int) + seq![' ', r.dir.symbol_of(), ' ']
        + r.session + seq![' '] + r.proto + seq![' '] + decimal_text(r.payload.len()) + seq![' ']
        + b64_encode_spec(r.payload)
}

fn push_all(out: &mut String, s: &String)
    ensures
        final(out)@ == old(out)@ + s@,
{
    out.append(s.as_str());
}

impl Record {
    /// Encode as a single trace line (no trailing newline).
    pub fn encode(&self) -> (line: String)
        ensures
            line@ == encode_spec(self@),
    {
        let mut out = String::new();
        out.push('V');
        out.push('1');
        out.push(' ');
        push_i64(&mut out, self.ts_nanos);
        out.push(' ');
        out.push(self.dir.symbol());
        out.push(' ');
        push_all(&mut out, &self.session);
        out.push(' ');
        push_all(&mut out, &self.proto);
        out.push(' ');
        push_usize(&mut out, self.payload.len());
        out.push(' ');
        let b = base64_encode(self.payload.as_slice());
        push_all(&mut out, &b);
        assert(out@ =~= encode_spec(self@));
        out
    }
}

/// Error while parsing a trace line.
#[derive(Debug)]
pub struct ParseError {
    pub line: usize,
    pub msg: String,
}

impl ParseError {
    /// The error as text: `trace: line <line>: <msg>`.
    pub fn to_string(&self) -> (s: String)
        ensures
            s@ == "trace: line "@ + decimal_text(self.line as nat) + ": "@ + self.msg@,
    {
        let mut s = String::from_str("trace: line ");
        push_usize(&mut s, self.line);
        s.append(": ");
        push_all(&mut s, &self.msg);
        s
    }
}

/// How many characters precede the first space of `s` (all of them when it
/// has none).
pub open spec fn first_space(s: Seq<char>) -> int
    decreases s.len(),
{
    if s.len() == 0 {
        0
    } else if s[0] == ' ' {
        0
    } else {
        1 + first_space(s.drop_first())
    }
}

/// `s` cut at its spaces into at most `n` pieces (`n >= 1`), left to right;
/// the last piece keeps the rest of the text, spaces included.
pub open spec fn split_fields(s: Seq<char>, n: nat) -> Seq<Seq<char>>
    decreases n,
{
    if n <= 1 {
        seq![s]
    } else {
        let k = first_space(s);
        if k >= s.len() {
            seq![s]
        } else {
            seq![s.take(k)] + split_fields(s.skip(k + 1), (n - 1) as nat)
        }
    }
}

/// Why a line is not a record.
pub enum LineError {
    /// The line has this many fields, not 7.
    FieldCount(nat),
    /// The version field is not `V1`.
    Version(Seq<char>),
    /// The timestamp is not an `i64`.
    Timestamp(IntErrorKind),
    /// The direction field is neither `>` nor `<`.
    Direction(Seq<char>),
    /// The length is not a `usize`.
    Length(IntErrorKind),
    /// The payload is not base64.
    Payload(Base64Error),
    /// The declared length and the decoded payload's length.
    LengthMismatch(nat, nat),
}

/// The error message for each way a line can fail.
pub open spec fn line_error_text(e: LineError) -> Seq<char> {
    match e {
        LineError::FieldCount(n) => "expected 7 fields, got "@ + decimal_text(n),
        LineError::Version(v) => "unknown record version "@ + str_shown(v),
        LineError::Timestamp(k) => "invalid timestamp: "@ + int_error_text(k),
        LineError::Direction(d) => "invalid direction "@ + str_shown(d),
        LineError::Length(k) => "invalid length: "@ + int_error_text(k),
        LineError::Payload(b) => "invalid base64 payload: "@ + b64_error_text(b),
        LineError::LengthMismatch(declared, decoded) => "length mismatch: declared "@
            + decimal_text(declared) + ", decoded "@ + decimal_text(decoded),
    }
}

/// Decoding one record line. The checks come in this order: 7 fields, the
/// version `V1`, the timestamp, the direction, the length, the base64
/// payload, and the payload's length against the declared one.
pub open spec fn decode_line_spec(line: Seq<char>) -> Result<RecordView, LineError> {
    let f = split_fields(line, 7);
    if f.len() != 7 {
        Err(LineError::FieldCount(f.len()))
    } else if f[0] != seq!['V', '1'] {
        Err(LineError::Version(f[0]))
    } else {
        match parse_integer(f[1], i64::MIN as int, i64::MAX as int) {
            Err(k) => Err(LineError::Timestamp(k)),
            Ok(ts) => if f[2] != seq!['>'] && f[2] != seq!['<'] {
                Err(LineError::Direction(f[2]))
            } else {
                match parse_integer(f[5], 0, usize::MAX as int) {
                    Err(k) => Err(LineError::Length(k)),
                    Ok(declared) => match b64_decode_spec(encode_utf8(f[6])) {
                        Err(b) => Err(LineError::Payload(b)),
                        Ok(p) => if p.len() != declared {
                            Err(LineError::LengthMismatch(declared as nat, p.len()))
                        } else {
                            Ok(
                                RecordView {
                                    ts_nanos: ts as i64,
                                    dir: if f[2] == seq!['>'] {
                                        Direction::Request
                                    } else {
                                        Direction::Response
                                    },
                                    session: f[3],
                                    proto: f[4],
                                    payload: p,
                                },
                            )
                        },
                    },
                }
            },
        }
    }
}

/// The characters of `s`, in order.
fn chars_of(s: &str) -> (v: Vec<char>)
    ensures
        v@ == s@,
{
    let mut v: Vec<char> = Vec::new();
    for c in it: s.chars()
        invariant
            v@ == it.seq().take(it.index() as int),
    {
        v.push(c);
    }
    v
}

/// A `String` holding the characters `s[from..to]`.
fn string_of(s: &Vec<char>, from: usize, to: usize) -> (r: String)
    requires
        from <= to <= s@.len(),
    ensures
        r@ == s@.subrange(from as int, to as int),
{
    let mut r = String::new();
    let mut i = from;
    while i < to
        invariant
            from <= i <= to <= s@.len(),
            r@ == s@.subrange(from as int, i as int),
        decreases to - i,
    {
        r.push(s[i]);
        i = i + 1;
        assert(r@ =~= s@.subrange(from as int, i as int));
    }
    r
}

/// The position of the first space at or after `from` (`s.len()` if none).
fn find_space(s: &Vec<char>, from: usize) -> (k: usize)
    requires
        from <= s@.len(),
    ensures
        k == from + first_space(s@.skip(from as int)),
        from <= k <= s@.len(),
{
    let mut j = from;
    while j < s.len() && s[j] != ' '
        invariant
            from <= j <= s@.len(),
            first_space(s@.skip(from as int)) == (j - from) + first_space(s@.skip(j as int)),
        decreases s@.len() - j,
    {
        assert(s@.skip(j as int).drop_first() =~= s@.skip(j + 1));
        j = j + 1;
    }
    if j < s.len() {
        assert(s@.skip(j as int)[0] == ' ');
    } else {
        assert(s@.skip(j as int).len() == 0);
    }
    j
}

/// Text fields, as `String`s holding the pieces of `split_fields`.
fn split_n(s: &Vec<char>, n: usize) -> (fields: Vec<String>)
    requires
        n >= 1,
    ensures
        fields@.len() == split_fields(s@, n as nat).len(),
        forall|i: int| 0 <= i < fields@.len() ==> #[trigger] fields@[i]@ == split_fields(
            s@,
            n as nat,
        )[i],
{
    let mut fields: Vec<String> = Vec::new();
    let mut start: usize = 0;
    let ghost full = split_fields(s@, n as nat);
    assert(s@.skip(0) =~= s@);
    loop
        invariant
            start <= s@.len(),
            fields@.len() < n,
            full == split_fields(s@, n as nat),
            full.len() == fields@.len() + split_fields(s@.skip(start as int), (n - fields@.len()) as nat).len(),
            forall|i: int| 0 <= i < fields@.len() ==> #[trigger] fields@[i]@ == full[i],
            forall|i: int|
                0 <= i < split_fields(s@.skip(start as int), (n - fields@.len()) as nat).len()
                    ==> full[fields@.len() + i] == #[trigger] split_fields(
                    s@.skip(start as int),
                    (n - fields@.len()) as nat,
                )[i],
        decreases s@.len() - start,
    {
        let ghost rest = s@.skip(start as int);
        let ghost m = (n - fields@.len()) as nat;
        if fields.len() + 1 == n {
            let last = string_of(s, start, s.len());
            assert(last@ =~= rest);
            assert(split_fields(rest, m) == seq![rest]);
            assert(full[fields@.len() as int + 0] == split_fields(rest, m)[0]);
            fields.push(last);
            assert(forall|i: int| 0 <= i < fields@.len() ==> #[trigger] fields@[i]@ == full[i]);
            return fields;
        }
        let k = find_space(s, start);
        if k == s.len() {
            let last = string_of(s, start, s.len());
            assert(last@ =~= rest);
            assert(split_fields(rest, m) == seq![rest]);
            assert(full[fields@.len() as int + 0] == split_fields(rest, m)[0]);
            fields.push(last);
            assert(forall|i: int| 0 <= i < fields@.len() ==> #[trigger] fields@[i]@ == full[i]);
            return fields;
        }
        let piece = string_of(s, start, k);
        proof {
            let kk = first_space(rest);
            assert(kk == k - start);
            assert(piece@ =~= rest.take(kk));
            assert(rest.skip(kk + 1) =~= s@.skip(k + 1));
            assert(split_fields(rest, m) == seq![rest.take(kk)] + split_fields(
                s@.skip(k + 1),
                (m - 1) as nat,
            ));
        }
        let ghost old_fields = fields@;
        fields.push(piece);
        start = k + 1;
        proof {
            let rest2 = s@.skip(start as int);
            let tail = split_fields(rest2, (m - 1) as nat);
            assert(split_fields(rest, m) == seq![piece@] + tail);
            assert(full[old_fields.len() as int + 0] == split_fields(rest, m)[0]);
            assert forall|i: int| 0 <= i < fields@.len() implies #[trigger] fields@[i]@ == full[i] by {
                if i < old_fields.len() {
                    assert(fields@[i] == old_fields[i]);
                }
            }
            assert forall|i: int| 0 <= i < tail.len() implies full[fields@.len() + i] == #[trigger] tail[i] by {
                assert(split_fields(rest, m)[i + 1] == tail[i]);
                assert(full[old_fields.len() + (i + 1)] == split_fields(rest, m)[i + 1]);
            }
            assert((n - fields@.len()) as nat == (m - 1) as nat);
        }
    }
}

/// Parse a single record line.
pub fn decode_line(line: &str, line_no: usize) -> (r: Result<Record, ParseError>)
    ensures
        match r {
            Ok(rec) => decode_line_spec(line@) == Ok::<RecordView, LineError>(rec@),
            Err(e) => decode_line_spec(line@) matches Err(k) && e.line == line_no && e.msg@
                == line_error_text(k),
        },
{
    let chars = chars_of(line);
    decode_chars(&chars, line_no)
}

/// The message for a version field other than `V1`, given that field's
/// `Debug` form (quoted).
pub fn version_error_message(quoted: &str) -> (m: String)
    ensures
        m@ == "unknown record version "@ + quoted@,
{
    let mut m = String::from_str("unknown record version ");
    m.append(quoted);
    m
}

/// The message for a direction field other than `>` or `<`, given that
/// field's `Debug` form (quoted).
pub fn direction_error_message(quoted: &str) -> (m: String)
    ensures
        m@ == "invalid direction "@ + quoted@,
{
    let mut m = String::from_str("invalid direction ");
    m.append(quoted);
    m
}

fn prefixed(prefix: &str, detail: &String) -> (m: String)
    ensures
        m@ == prefix@ + detail@,
{
    let mut m = String::from_str(prefix);
    push_all(&mut m, detail);
    m
}

fn chars_vec(s: &String) -> (v: Vec<char>)
    ensures
        v@ == s@,
{
    chars_of(s.as_str())
}

fn decode_chars(line: &Vec<char>, line_no: usize) -> (r: Result<Record, ParseError>)
    ensures
        match r {
            Ok(rec) => decode_line_spec(line@) == Ok::<RecordView, LineError>(rec@),
            Err(e) => decode_line_spec(line@) matches Err(k) && e.line == line_no && e.msg@
                == line_error_text(k),
        },
{
    let ghost f = split_fields(line@, 7);
    let fields = split_n(line, 7);
    if fields.len() != 7 {
        let mut m = String::from_str("expected 7 fields, got ");
        push_usize(&mut m, fields.len());
        return Err(ParseError { line: line_no, msg: m });
    }
    assert(fields@[0]@ == f[0]);
    assert(fields@[1]@ == f[1]);
    assert(fields@[2]@ == f[2]);
    assert(fields@[3]@ == f[3]);
    assert(fields@[4]@ == f[4]);
    assert(fields@[5]@ == f[5]);
    assert(fields@[6]@ == f[6]);
    let version = chars_vec(&fields[0]);
    if !(version.len() == 2 && version[0] == 'V' && version[1] == '1') {
        proof {
            if f[0] == seq!['V', '1'] {
                assert(version@ == seq!['V', '1']);
            }
        }
        let q = debug_str(fields[0].as_str());
        return Err(ParseError { line: line_no, msg: version_error_message(q.as_str()) });
    }
    assert(f[0] =~= seq!['V', '1']);
    let ts_text = chars_vec(&fields[1]);
    let ts_nanos = match parse_i64(ts_text.as_slice()) {
        Ok(v) => v,
        Err(k) => {
            return Err(ParseError { line: line_no, msg: prefixed("invalid timestamp: ", &k.message()) });
        },
    };
    let dir_text = chars_vec(&fields[2]);
    let dir = if dir_text.len() == 1 && dir_text[0] == '>' {
        assert(f[2] =~= seq!['>']);
        Direction::Request
    } else if dir_text.len() == 1 && dir_text[0] == '<' {
        assert(f[2] =~= seq!['<']);
        assert(f[2] != seq!['>']);
        Direction::Response
    } else {
        proof {
            if f[2] == seq!['>'] || f[2] == seq!['<'] {
                assert(dir_text@.len() == 1);
            }
        }
        let q = debug_str(fields[2].as_str());
        return Err(ParseError { line: line_no, msg: direction_error_message(q.as_str()) });
    };
    let len_text = chars_vec(&fields[5]);
    let declared_len = match parse_usize(len_text.as_slice()) {
        Ok(v) => v,
        Err(k) => {
            return Err(ParseError { line: line_no, msg: prefixed("invalid length: ", &k.message()) });
        },
    };
    let payload = match base64_decode(fields[6].as_str()) {
        Ok(p) => p,
        Err(e) => {
            return Err(ParseError { line: line_no, msg: prefixed("invalid base64 payload: ", &e) });
        },
    };
    if payload.len() != declared_len {
        let mut m = String::from_str("length mismatch: declared ");
        push_usize(&mut m, declared_len);
        m.append(", decoded ");
        push_usize(&mut m, payload.len());
        return Err(ParseError { line: line_no, msg: m });
    }
    let session = fields[3].clone();
    let proto = fields[4].clone();
    let rec = Record { ts_nanos, dir, session, proto, payload };
    proof {
        assert(rec@.session == f[3]);
        assert(rec@.proto == f[4]);
    }
    Ok(rec)
}

} // verus!

verus! {

/// `s` without the carriage returns at its end.
pub open spec fn trim_trailing_cr(s: Seq<char>) -> Seq<char>
    decreases s.len(),
{
    if s.len() > 0 && s.last() == '\r' {
        trim_trailing_cr(s.drop_last())
    } else {
        s
    }
}

/// A blank line or a comment: a trace holds no record there.
pub open spec fn is_ignored(l: Seq<char>) -> bool {
    l.len() == 0 || l[0] == '#'
}

/// The records of `lines`, the first of which has number `first_no`: each
/// line loses its trailing carriage returns, blank lines and comments are
/// skipped, and every other line must decode; the first one that does not
/// decides the error, with its number.
pub open spec fn read_all_spec(lines: Seq<Seq<char>>, first_no: int) -> Result<
    Seq<RecordView>,
    (int, LineError),
>
    decreases lines.len(),
{
    if lines.len() == 0 {
        Ok(seq![])
    } else {
        let l = trim_trailing_cr(lines[0]);
        if is_ignored(l) {
            read_all_spec(lines.drop_first(), first_no + 1)
        } else {
            match decode_line_spec(l) {
                Err(e) => Err((first_no, e)),
                Ok(r) => match read_all_spec(lines.drop_first(), first_no + 1) {
                    Ok(rs) => Ok(seq![r] + rs),
                    Err(x) => Err(x),
                },
            }
        }
    }
}

/// `done` in front of the records of `rest`, or the error of `rest`.
pub open spec fn after_records(
    done: Seq<RecordView>,
    rest: Result<Seq<RecordView>, (int, LineError)>,
) -> Result<Seq<RecordView>, (int, LineError)> {
    match rest {
        Ok(rs) => Ok(done + rs),
        Err(x) => Err(x),
    }
}

/// The views of a sequence of records.
pub open spec fn record_views(rs: Seq<Record>) -> Seq<RecordView> {
    rs.map_values(|r: Record| r@)
}

/// The characters of each line.
pub open spec fn line_texts(lines: Seq<String>) -> Seq<Seq<char>> {
    lines.map_values(|l: String| l@)
}

fn trim_cr(v: &mut Vec<char>)
    ensures
        final(v)@ == trim_trailing_cr(old(v)@),
{
    while v.len() > 0 && v[v.len() - 1] == '\r'
        invariant
            trim_trailing_cr(old(v)@) == trim_trailing_cr(v@),
        decreases v@.len(),
    {
        let ghost before = v@;
        v.pop();
        assert(v@ =~= before.drop_last());
    }
}

/// Read all records from the lines of a trace (each without its line
/// break), skipping comments and blank lines. Line numbers count from 1.
pub fn read_all(lines: &[String]) -> (r: Result<Vec<Record>, ParseError>)
    ensures
        match r {
            Ok(v) => read_all_spec(line_texts(lines@), 1) == Ok::<
                Seq<RecordView>,
                (int, LineError),
            >(record_views(v@)),
            Err(e) => read_all_spec(line_texts(lines@), 1) matches Err((n, k)) && e.line == n
                && e.msg@ == line_error_text(k),
        },
{
    let ghost all = line_texts(lines@);
    let mut out: Vec<Record> = Vec::new();
    let mut i: usize = 0;
    assert(all.skip(0) =~= all);
    assert(record_views(out@) + Seq::<RecordView>::empty() =~= Seq::<RecordView>::empty());
    while i < lines.len()
        invariant
            i <= lines@.len(),
            all == line_texts(lines@),
            read_all_spec(all, 1) == after_records(
                record_views(out@),
                read_all_spec(all.skip(i as int), i + 1),
            ),
        decreases lines@.len() - i,
    {
        let ghost rest = all.skip(i as int);
        assert(rest.drop_first() =~= all.skip(i + 1));
        assert(rest[0] == lines@[i as int]@);
        let mut cs = chars_vec(&lines[i]);
        trim_cr(&mut cs);
        if cs.len() == 0 || cs[0] == '#' {
            i = i + 1;
        } else {
            match decode_chars(&cs, i + 1) {
                Ok(rec) => {
                    let ghost before = out@;
                    out.push(rec);
                    proof {
                        assert(record_views(out@) =~= record_views(before) + seq![rec@]);
                        match read_all_spec(all.skip(i + 1), i + 2) {
                            Ok(rs) => {
                                assert(record_views(before) + (seq![rec@] + rs) =~= record_views(
                                    out@,
                                ) + rs);
                            },
                            Err(x) => {},
                        }
                    }
                    i = i + 1;
                },
                Err(e) => {
                    return Err(e);
                },
            }
        }
    }
    assert(all.skip(i as int).len() == 0);
    assert(record_views(out@) + Seq::<RecordView>::empty() =~= record_views(out@));
    Ok(out)
}

} // verus!

verus! {

proof fn lemma_first_space(x: Seq<char>, y: Seq<char>)
    requires
        !x.contains(' '),
    ensures
        first_space(x + seq![' '] + y) == x.len(),
    decreases x.len(),
{
    let z = x + seq![' '] + y;
    if x.len() == 0 {
        assert(z[0] == ' ');
    } else {
        assert(z[0] == x[0]);
        assert(x[0] != ' ');
        assert(z.drop_first() =~= x.drop_first() + seq![' '] + y);
        assert(!x.drop_first().contains(' ')) by {
            if x.drop_first().contains(' ') {
                let i = choose|i: int| 0 <= i < x.drop_first().len() && x.drop_first()[i] == ' ';
                assert(x[i + 1] == ' ');
            }
        }
        lemma_first_space(x.drop_first(), y);
    }
}

proof fn lemma_split_cons(x: Seq<char>, y: Seq<char>, n: nat)
    requires
        !x.contains(' '),
        n >= 2,
    ensures
        split_fields(x + seq![' '] + y, n) == seq![x] + split_fields(y, (n - 1) as nat),
{
    let z = x + seq![' '] + y;
    lemma_first_space(x, y);
    assert(z.take(x.len() as int) =~= x);
    assert(z.skip(x.len() as int + 1) =~= y);
}

proof fn lemma_digits_no_space(t: Seq<char>)
    requires
        forall|i: int| 0 <= i < t.len() ==> is_digit(#[trigger] t[i]),
    ensures
        !t.contains(' '),
{
    if t.contains(' ') {
        let i = choose|i: int| 0 <= i < t.len() && t[i] == ' ';
        assert(is_digit(t[i]));
    }
}

proof fn lemma_int_text_no_space(v: int)
    ensures
        !int_text(v).contains(' '),
{
    if v < 0 {
        let n = (-v) as nat;
        lemma_decimal_digits(n);
        lemma_digits_no_space(decimal_text(n));
        let t = int_text(v);
        if t.contains(' ') {
            let i = choose|i: int| 0 <= i < t.len() && t[i] == ' ';
            if i > 0 {
                assert(t[i] == decimal_text(n)[i - 1]);
            }
        }
    } else {
        lemma_decimal_digits(v as nat);
        lemma_digits_no_space(decimal_text(v as nat));
    }
}

/// A record whose session and protocol names hold no space is decoded from
/// its own trace line unchanged.
pub proof fn law_decode_encode(r: RecordView)
    requires
        !r.session.contains(' '),
        !r.proto.contains(' '),
        r.payload.len() <= usize::MAX,
    ensures
        decode_line_spec(encode_spec(r)) == Ok::<RecordView, LineError>(r),
{
    let v = seq!['V', '1'];
    let t = int_text(r.ts_nanos as int);
    let d = seq![r.dir.symbol_of()];
    let l = decimal_text(r.payload.len());
    let b = b64_encode_spec(r.payload);
    let sp = seq![' '];
    let line = encode_spec(r);
    let rest5 = l + sp + b;
    let rest4 = r.proto + sp + rest5;
    let rest3 = r.session + sp + rest4;
    let rest2 = d + sp + rest3;
    let rest1 = t + sp + rest2;
    assert(line =~= v + sp + rest1);
    assert(!v.contains(' ')) by {
        if v.contains(' ') {
            let i = choose|i: int| 0 <= i < v.len() && v[i] == ' ';
        }
    }
    assert(!d.contains(' ')) by {
        if d.contains(' ') {
            let i = choose|i: int| 0 <= i < d.len() && d[i] == ' ';
        }
    }
    lemma_int_text_no_space(r.ts_nanos as int);
    lemma_decimal_digits(r.payload.len());
    lemma_digits_no_space(l);
    lemma_split_cons(v, rest1, 7);
    lemma_split_cons(t, rest2, 6);
    lemma_split_cons(d, rest3, 5);
    lemma_split_cons(r.session, rest4, 4);
    lemma_split_cons(r.proto, rest5, 3);
    lemma_split_cons(l, b, 2);
    let f = split_fields(line, 7);
    assert(split_fields(b, 1) == seq![b]);
    assert(f =~= seq![v, t, d, r.session, r.proto, l, b]);
    law_int_text_round_trip(r.ts_nanos as int, i64::MIN as int, i64::MAX as int);
    law_int_text_round_trip(r.payload.len() as int, 0, usize::MAX as int);
    assert(int_text(r.payload.len() as int) == l);
    law_base64_round_trip(r.payload);
    let dir = if f[2] == seq!['>'] {
        Direction::Request
    } else {
        Direction::Response
    };
    assert(dir == r.dir);
    assert(decode_line_spec(line) == Ok::<RecordView, LineError>(
        RecordView {
            ts_nanos: r.ts_nanos,
            dir: r.dir,
            session: r.session,
            proto: r.proto,
            payload: r.payload,
        },
    ));
}

} // verus!

verus! {

proof fn lemma_encoded_line_kept(r: RecordView)
    ensures
        trim_trailing_cr(encode_spec(r)) == encode_spec(r),
        !is_ignored(encode_spec(r)),
{
    let l = encode_spec(r);
    let b = b64_encode_spec(r.payload);
    law_base64_text_shape(r.payload);
    let front = seq!['V', '1', ' '] + int_text(r.ts_nanos as int) + seq![' ', r.dir.symbol_of(), ' ']
        + r.session + seq![' '] + r.proto + seq![' '] + decimal_text(r.payload.len()) + seq![' '];
    assert(l == front + b);
    assert(l[0] == 'V');
    if b.len() > 0 {
        assert(l.last() == b[b.len() - 1]);
        assert(is_b64_text_char(b[b.len() - 1]));
    } else {
        assert(l =~= front);
        assert(l.last() == ' ');
    }
}

/// A trace written one record per line reads back as the same records,
/// provided no session or protocol name holds a space.
pub proof fn law_read_back(rs: Seq<RecordView>, first_no: int)
    requires
        forall|i: int|
            0 <= i < rs.len() ==> !(#[trigger] rs[i]).session.contains(' ') && !rs[i].proto.contains(
                ' ',
            ) && rs[i].payload.len() <= usize::MAX,
    ensures
        read_all_spec(rs.map_values(|r: RecordView| encode_spec(r)), first_no) == Ok::<
            Seq<RecordView>,
            (int, LineError),
        >(rs),
    decreases rs.len(),
{
    let lines = rs.map_values(|r: RecordView| encode_spec(r));
    if rs.len() > 0 {
        let r = rs[0];
        lemma_encoded_line_kept(r);
        law_decode_encode(r);
        let rest = rs.drop_first();
        assert(lines[0] == encode_spec(r));
        assert(lines.drop_first() =~= rest.map_values(|r: RecordView| encode_spec(r)));
        assert forall|i: int| 0 <= i < rest.len() implies !(#[trigger] rest[i]).session.contains(' ')
            && !rest[i].proto.contains(' ') && rest[i].payload.len() <= usize::MAX by {
            assert(rest[i] == rs[i + 1]);
        }
        law_read_back(rest, first_no + 1);
        assert(seq![r] + rest =~= rs);
        assert(decode_line_spec(trim_trailing_cr(lines[0])) == Ok::<RecordView, LineError>(r));
    } else {
        assert(lines.len() == 0);
        assert(rs =~= Seq::<RecordView>::empty());
    }
}

} // verus!

verus! {

/// A line decodes to a record exactly when its 7 fields are `V1`, the
/// record's timestamp as an `i64`, its direction symbol, its session, its
/// protocol, the length of its payload as a `usize`, and the payload in
/// base64: a declared length that differs from the payload's in any way
/// makes the line fail.
pub proof fn law_decoded_line(line: Seq<char>, r: RecordView)
    ensures
        decode_line_spec(line) == Ok::<RecordView, LineError>(r) <==> ({
            let f = split_fields(line, 7);
            &&& f.len() == 7
            &&& f[0] == seq!['V', '1']
            &&& parse_integer(f[1], i64::MIN as int, i64::MAX as int) == Ok::<int, IntErrorKind>(
                r.ts_nanos as int,
            )
            &&& f[2] == seq![r.dir.symbol_of()]
            &&& f[3] == r.session
            &&& f[4] == r.proto
            &&& parse_integer(f[5], 0, usize::MAX as int) == Ok::<int, IntErrorKind>(
                r.payload.len() as int,
            )
            &&& b64_decode_spec(encode_utf8(f[6])) == Ok::<Seq<u8>, Base64Error>(r.payload)
        }),
{
    let f = split_fields(line, 7);
    lemma_parse_in_range(f[1], i64::MIN as int, i64::MAX as int);
    lemma_parse_in_range(f[5], 0, usize::MAX as int);
    if f.len() == 7 && f[2] == seq![r.dir.symbol_of()] {
        if r.dir == Direction::Request {
            assert(f[2] == seq!['>']);
        } else {
            assert(f[2] == seq!['<']);
            assert(seq!['<'] != seq!['>']) by {
                assert(seq!['<'][0] != seq!['>'][0]);
            }
        }
    }
    if decode_line_spec(line) == Ok::<RecordView, LineError>(r) {
        if f[2] == seq!['>'] {
            assert(seq![r.dir.symbol_of()] =~= f[2]);
        } else {
            assert(seq![r.dir.symbol_of()] =~= f[2]);
        }
    }
}

/// Trimming the trailing carriage returns keeps a first character that is
/// not one.
proof fn lemma_trim_keeps_first(c: Seq<char>)
    requires
        c.len() > 0,
        c[0] != '\r',
    ensures
        trim_trailing_cr(c).len() > 0,
        trim_trailing_cr(c)[0] == c[0],
    decreases c.len(),
{
    if c.last() == '\r' {
        assert(c.len() > 1);
        lemma_trim_keeps_first(c.drop_last());
    }
}

/// Numbering the same lines from one further on shifts the number of the
/// failing line by one and changes nothing else.
proof fn lemma_read_all_shift(s: Seq<Seq<char>>, m: int)
    ensures
        match (read_all_spec(s, m + 1), read_all_spec(s, m)) {
            (Ok(x), Ok(y)) => x == y,
            (Err((k1, e1)), Err((k2, e2))) => e1 == e2 && k1 == k2 + 1 && m <= k2 < m + s.len(),
            _ => false,
        },
    decreases s.len(),
{
    if s.len() > 0 {
        lemma_read_all_shift(s.drop_first(), m + 1);
    }
}

/// A comment line (one that begins with `#`) or a blank line (nothing but
/// carriage returns, or nothing at all) may stand anywhere in a trace:
/// taking it out changes neither the records read nor the error, only the
/// number of a failing line after it, which is one less.
pub proof fn law_comment_lines_ignored(
    before: Seq<Seq<char>>,
    comment: Seq<char>,
    after: Seq<Seq<char>>,
    first_no: int,
)
    requires
        (comment.len() > 0 && comment[0] == '#') || forall|i: int|
            0 <= i < comment.len() ==> #[trigger] comment[i] == '\r',
    ensures
        match (
            read_all_spec(before + seq![comment] + after, first_no),
            read_all_spec(before + after, first_no),
        ) {
            (Ok(x), Ok(y)) => x == y,
            (Err((k1, e1)), Err((k2, e2))) => e1 == e2 && (if k2 < first_no + before.len() {
                k1 == k2
            } else {
                k1 == k2 + 1
            }),
            _ => false,
        },
    decreases before.len(),
{
    let with = before + seq![comment] + after;
    let without = before + after;
    if before.len() == 0 {
        assert(with.drop_first() =~= after);
        assert(without =~= after);
        if comment.len() > 0 && comment[0] == '#' {
            lemma_trim_keeps_first(comment);
        } else {
            lemma_trim_all_cr(comment);
        }
        assert(with[0] == comment);
        lemma_read_all_shift(after, first_no);
    } else {
        let rest = before.drop_first();
        assert(with.drop_first() =~= rest + seq![comment] + after);
        assert(without.drop_first() =~= rest + after);
        assert(with[0] == before[0]);
        assert(without[0] == before[0]);
        law_comment_lines_ignored(rest, comment, after, first_no + 1);
        lemma_read_all_errors_from(without.drop_first(), first_no + 1);
    }
}

/// A line of carriage returns alone is blank once they are trimmed.
proof fn lemma_trim_all_cr(c: Seq<char>)
    requires
        forall|i: int| 0 <= i < c.len() ==> #[trigger] c[i] == '\r',
    ensures
        trim_trailing_cr(c).len() == 0,
    decreases c.len(),
{
    if c.len() > 0 {
        assert(c.last() == c[c.len() - 1]);
        lemma_trim_all_cr(c.drop_last());
    }
}

/// Carriage returns at the end of a line change nothing that is read.
pub proof fn law_trailing_cr_ignored(
    before: Seq<Seq<char>>,
    line: Seq<char>,
    after: Seq<Seq<char>>,
    first_no: int,
)
    ensures
        read_all_spec(before + seq![line.push('\r')] + after, first_no) == read_all_spec(
            before + seq![line] + after,
            first_no,
        ),
    decreases before.len(),
{
    let with = before + seq![line.push('\r')] + after;
    let without = before + seq![line] + after;
    if before.len() == 0 {
        assert(with.drop_first() =~= after);
        assert(without.drop_first() =~= after);
        assert(with[0] == line.push('\r'));
        assert(without[0] == line);
        assert(line.push('\r').drop_last() =~= line);
        assert(trim_trailing_cr(line.push('\r')) == trim_trailing_cr(line));
    } else {
        let rest = before.drop_first();
        assert(with.drop_first() =~= rest + seq![line.push('\r')] + after);
        assert(without.drop_first() =~= rest + seq![line] + after);
        assert(with[0] == before[0]);
        assert(without[0] == before[0]);
        law_trailing_cr_ignored(rest, line, after, first_no + 1);
    }
}

/// The number of a failing line is that of one of the lines read.
proof fn lemma_read_all_errors_from(s: Seq<Seq<char>>, m: int)
    ensures
        read_all_spec(s, m) matches Err((k, e)) ==> m <= k < m + s.len(),
    decreases s.len(),
{
    if s.len() > 0 {
        lemma_read_all_errors_from(s.drop_first(), m + 1);
    }
}

} // verus!
