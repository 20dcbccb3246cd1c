//! The store: the backing file's content, rendered and scanned.
//!
//! The file is UTF-8 text: one record per line, fields separated by commas,
//! a field quoted with `"` when it holds a comma, a quote, or a line break
//! (an inner quote is doubled).  The first record is the header
//! `title,is_done`; every later record encodes one task.  The store works on
//! the content as a value; reading and writing the actual file is the
//! caller's business.

use vstd::prelude::*;
use crate::task::{Task, TaskView, views_of};
use crate::codec::{DecodeError, bool_chars, encode_spec, decode_spec};

verus! {

// ------------------------------------------------------------------
// Rendering: tasks to file content
// ------------------------------------------------------------------

/// Whether a field must be quoted to survive the trip through the file.
pub open spec fn needs_quoting(f: Seq<char>) -> bool {
    f.contains(',') || f.contains('"') || f.contains('\n') || f.contains('\r')
}

/// A field's characters with every quote doubled.
pub open spec fn escape_quotes(f: Seq<char>) -> Seq<char>
    decreases f.len(),
{
    if f.len() == 0 {
        Seq::<char>::empty()
    } else if f[0] == '"' {
        seq!['"', '"'] + escape_quotes(f.drop_first())
    } else {
        seq![f[0]] + escape_quotes(f.drop_first())
    }
}

/// A field as written to the file: quoted and escaped only when needed.
pub open spec fn quote_field(f: Seq<char>) -> Seq<char> {
    if needs_quoting(f) {
        seq!['"'] + escape_quotes(f) + seq!['"']
    } else {
        f
    }
}

/// A record's fields joined by commas.
pub open spec fn render_fields(fs: Seq<Seq<char>>) -> Seq<char>
    decreases fs.len(),
{
    if fs.len() == 0 {
        Seq::<char>::empty()
    } else if fs.len() == 1 {
        quote_field(fs[0])
    } else {
        quote_field(fs[0]) + seq![','] + render_fields(fs.drop_first())
    }
}

/// One full line of the file: the fields and the terminating newline.
pub open spec fn render_record(fs: Seq<Seq<char>>) -> Seq<char> {
    render_fields(fs) + seq!['\n']
}

/// The header record's two fields.
pub open spec fn header_fields() -> Seq<Seq<char>> {
    seq![seq!['t', 'i', 't', 'l', 'e'], seq!['i', 's', '_', 'd', 'o', 'n', 'e']]
}

/// The lines that encode a task sequence, in order.
pub open spec fn render_tasks(ts: Seq<TaskView>) -> Seq<char>
    decreases ts.len(),
{
    if ts.len() == 0 {
        Seq::<char>::empty()
    } else {
        render_record(encode_spec(ts[0])) + render_tasks(ts.drop_first())
    }
}

/// The whole file's content for a task sequence: header, then the tasks.
pub open spec fn render_file(ts: Seq<TaskView>) -> Seq<char> {
    render_record(header_fields()) + render_tasks(ts)
}

// ------------------------------------------------------------------
// Parsing: file content back to records
// ------------------------------------------------------------------

/// Where the record parser stands between two characters.
#[derive(Clone, Copy, Debug, PartialEq, Eq, Structural)]
pub enum ParseState {
    /// At the start of a record (or before one; empty lines are skipped).
    RecordStart,
    /// Right after a comma: at the start of a further field.
    FieldStart,
    /// Inside an unquoted field.
    Unquoted,
    /// Inside a quoted field.
    Quoted,
    /// Inside a quoted field, right after a quote character.
    QuoteSeen,
}

/// One step per character: consumes `s` from state `st` with the current
/// field `cur`, the current record `rec` and the finished records `acc`;
/// yields the records of the whole input, or nothing if it is malformed.
pub open spec fn parse_rec(
    s: Seq<char>,
    st: ParseState,
    cur: Seq<char>,
    rec: Seq<Seq<char>>,
    acc: Seq<Seq<Seq<char>>>,
) -> Option<Seq<Seq<Seq<char>>>>
    decreases s.len(),
{
    if s.len() == 0 {
        match st {
            ParseState::RecordStart => Some(acc),
            ParseState::FieldStart => Some(acc.push(rec.push(cur))),
            ParseState::Unquoted => Some(acc.push(rec.push(cur))),
            ParseState::Quoted => None,
            ParseState::QuoteSeen => Some(acc.push(rec.push(cur))),
        }
    } else {
        let c = s[0];
        let rest = s.drop_first();
        match st {
            ParseState::RecordStart => {
                if c == '\n' {
                    parse_rec(rest, ParseState::RecordStart, cur, rec, acc)
                } else if c == ',' {
                    parse_rec(rest, ParseState::FieldStart, Seq::<char>::empty(),
                        rec.push(Seq::<char>::empty()), acc)
                } else if c == '"' {
                    parse_rec(rest, ParseState::Quoted, Seq::<char>::empty(), rec, acc)
                } else {
                    parse_rec(rest, ParseState::Unquoted, seq![c], rec, acc)
                }
            },
            ParseState::FieldStart => {
                if c == '\n' {
                    parse_rec(rest, ParseState::RecordStart, Seq::<char>::empty(),
                        Seq::<Seq<char>>::empty(), acc.push(rec.push(cur)))
                } else if c == ',' {
                    parse_rec(rest, ParseState::FieldStart, Seq::<char>::empty(),
                        rec.push(cur), acc)
                } else if c == '"' {
                    parse_rec(rest, ParseState::Quoted, Seq::<char>::empty(), rec, acc)
                } else {
                    parse_rec(rest, ParseState::Unquoted, cur.push(c), rec, acc)
                }
            },
            ParseState::Unquoted => {
                if c == '\n' {
                    parse_rec(rest, ParseState::RecordStart, Seq::<char>::empty(),
                        Seq::<Seq<char>>::empty(), acc.push(rec.push(cur)))
                } else if c == ',' {
                    parse_rec(rest, ParseState::FieldStart, Seq::<char>::empty(),
                        rec.push(cur), acc)
                } else if c == '"' {
                    None
                } else {
                    parse_rec(rest, ParseState::Unquoted, cur.push(c), rec, acc)
                }
            },
            ParseState::Quoted => {
                if c == '"' {
                    parse_rec(rest, ParseState::QuoteSeen, cur, rec, acc)
                } else {
                    parse_rec(rest, ParseState::Quoted, cur.push(c), rec, acc)
                }
            },
            ParseState::QuoteSeen => {
                if c == '"' {
                    parse_rec(rest, ParseState::Quoted, cur.push('"'), rec, acc)
                } else if c == ',' {
                    parse_rec(rest, ParseState::FieldStart, Seq::<char>::empty(),
                        rec.push(cur), acc)
                } else if c == '\n' {
                    parse_rec(rest, ParseState::RecordStart, Seq::<char>::empty(),
                        Seq::<Seq<char>>::empty(), acc.push(rec.push(cur)))
                } else {
                    None
                }
            },
        }
    }
}

/// The records of a whole file, or nothing if the text is malformed.
pub open spec fn parse_file(s: Seq<char>) -> Option<Seq<Seq<Seq<char>>>> {
    parse_rec(s, ParseState::RecordStart, Seq::<char>::empty(),
        Seq::<Seq<char>>::empty(), Seq::<Seq<Seq<char>>>::empty())
}

/// Decodes every record of a sequence into a task, front to back.
pub open spec fn decode_all(recs: Seq<Seq<Seq<char>>>) -> Result<Seq<TaskView>, DecodeError>
    decreases recs.len(),
{
    if recs.len() == 0 {
        Ok(Seq::<TaskView>::empty())
    } else {
        match decode_spec(recs[0]) {
            Err(e) => Err(e),
            Ok(t) => match decode_all(recs.drop_first()) {
                Err(e) => Err(e),
                Ok(ts) => Ok(seq![t] + ts),
            },
        }
    }
}

/// What scanning a file's content yields: its tasks in file order (the
/// header record is skipped, not decoded), or the error owed to the text.
pub open spec fn scan_spec(content: Seq<char>) -> Result<Seq<TaskView>, DecodeError> {
    match parse_file(content) {
        None => Err(DecodeError::Malformed),
        Some(recs) => if recs.len() == 0 {
            Ok(Seq::<TaskView>::empty())
        } else {
            decode_all(recs.drop_first())
        },
    }
}

// ------------------------------------------------------------------
// The parser inverts the renderer
// ------------------------------------------------------------------

/// Consuming an escaped field body inside quotes lands on the closing quote.
proof fn lemma_escape_parse(
    f: Seq<char>,
    rest: Seq<char>,
    cur: Seq<char>,
    rec: Seq<Seq<char>>,
    acc: Seq<Seq<Seq<char>>>,
)
    ensures
        parse_rec(escape_quotes(f) + seq!['"'] + rest, ParseState::Quoted, cur, rec, acc)
            == parse_rec(rest, ParseState::QuoteSeen, cur + f, rec, acc),
    decreases f.len(),
{
    let s = escape_quotes(f) + seq!['"'] + rest;
    if f.len() == 0 {
        assert(s =~= seq!['"'] + rest);
        assert(s[0] == '"');
        assert(s.drop_first() =~= rest);
        assert(parse_rec(s, ParseState::Quoted, cur, rec, acc)
            == parse_rec(rest, ParseState::QuoteSeen, cur, rec, acc));
        assert(cur + f =~= cur);
    } else if f[0] == '"' {
        let f1 = f.drop_first();
        let s2 = escape_quotes(f1) + seq!['"'] + rest;
        assert(escape_quotes(f) == seq!['"', '"'] + escape_quotes(f1));
        let s1 = seq!['"'] + s2;
        assert(s =~= seq!['"'] + s1);
        assert(s[0] == '"');
        assert(s.drop_first() =~= s1);
        assert(parse_rec(s, ParseState::Quoted, cur, rec, acc)
            == parse_rec(s1, ParseState::QuoteSeen, cur, rec, acc));
        assert(s1[0] == '"');
        assert(s1.drop_first() =~= s2);
        assert(parse_rec(s1, ParseState::QuoteSeen, cur, rec, acc)
            == parse_rec(s2, ParseState::Quoted, cur.push('"'), rec, acc));
        lemma_escape_parse(f1, rest, cur.push('"'), rec, acc);
        assert(cur.push('"') + f1 =~= cur + f);
    } else {
        let f1 = f.drop_first();
        let s2 = escape_quotes(f1) + seq!['"'] + rest;
        assert(escape_quotes(f) == seq![f[0]] + escape_quotes(f1));
        assert(s =~= seq![f[0]] + s2);
        assert(s[0] == f[0]);
        assert(s.drop_first() =~= s2);
        assert(parse_rec(s, ParseState::Quoted, cur, rec, acc)
            == parse_rec(s2, ParseState::Quoted, cur.push(f[0]), rec, acc));
        lemma_escape_parse(f1, rest, cur.push(f[0]), rec, acc);
        assert(cur.push(f[0]) + f1 =~= cur + f);
    }
}

/// Consuming an unquoted field body stays inside the field.
proof fn lemma_unquoted_parse(
    f: Seq<char>,
    rest: Seq<char>,
    cur: Seq<char>,
    rec: Seq<Seq<char>>,
    acc: Seq<Seq<Seq<char>>>,
)
    requires
        !f.contains(','),
        !f.contains('"'),
        !f.contains('\n'),
    ensures
        parse_rec(f + rest, ParseState::Unquoted, cur, rec, acc)
            == parse_rec(rest, ParseState::Unquoted, cur + f, rec, acc),
    decreases f.len(),
{
    let s = f + rest;
    if f.len() == 0 {
        assert(s =~= rest);
        assert(cur + f =~= cur);
    } else {
        let f1 = f.drop_first();
        assert(f[0] != ',' && f[0] != '"' && f[0] != '\n');
        assert(s[0] == f[0]);
        assert(s.drop_first() =~= f1 + rest);
        assert(forall|i: int| 0 <= i < f1.len() ==> f1[i] == f[i + 1]);
        lemma_unquoted_parse(f1, rest, cur.push(f[0]), rec, acc);
        assert(cur.push(f[0]) + f1 =~= cur + f);
    }
}

/// Consuming one rendered field from the start of a field position either
/// moves to the next field (after a comma) or finishes the record (at a
/// newline).
proof fn lemma_field_parse(
    f: Seq<char>,
    rest: Seq<char>,
    st: ParseState,
    rec: Seq<Seq<char>>,
    acc: Seq<Seq<Seq<char>>>,
)
    requires
        st == ParseState::RecordStart || st == ParseState::FieldStart,
        rest.len() > 0,
        rest[0] == ',' || rest[0] == '\n',
        f.len() > 0 || needs_quoting(f) || rest[0] == ',',
    ensures
        parse_rec(quote_field(f) + rest, st, Seq::<char>::empty(), rec, acc)
            == if rest[0] == ',' {
                parse_rec(rest.drop_first(), ParseState::FieldStart, Seq::<char>::empty(),
                    rec.push(f), acc)
            } else {
                parse_rec(rest.drop_first(), ParseState::RecordStart, Seq::<char>::empty(),
                    Seq::<Seq<char>>::empty(), acc.push(rec.push(f)))
            },
{
    let s = quote_field(f) + rest;
    let cur0 = Seq::<char>::empty();
    if needs_quoting(f) {
        let s1 = escape_quotes(f) + seq!['"'] + rest;
        assert(s =~= seq!['"'] + s1);
        assert(s[0] == '"');
        assert(s.drop_first() =~= s1);
        assert(parse_rec(s, st, cur0, rec, acc)
            == parse_rec(s1, ParseState::Quoted, cur0, rec, acc));
        lemma_escape_parse(f, rest, cur0, rec, acc);
        assert(cur0 + f =~= f);
        assert(parse_rec(s1, ParseState::Quoted, cur0, rec, acc)
            == parse_rec(rest, ParseState::QuoteSeen, f, rec, acc));
        assert(rest.len() > 0);
    } else {
        assert(quote_field(f) == f);
        if f.len() == 0 {
            assert(s =~= rest);
            assert(rest[0] == ',');
            assert(f =~= cur0);
        } else {
            let f1 = f.drop_first();
            assert(f[0] != ',' && f[0] != '"' && f[0] != '\n');
            assert(s[0] == f[0]);
            assert(s.drop_first() =~= f1 + rest);
            assert(parse_rec(s, st, cur0, rec, acc)
                == parse_rec(f1 + rest, ParseState::Unquoted, seq![f[0]], rec, acc));
            assert(forall|i: int| 0 <= i < f1.len() ==> f1[i] == f[i + 1]);
            lemma_unquoted_parse(f1, rest, seq![f[0]], rec, acc);
            assert(seq![f[0]] + f1 =~= f);
            assert(parse_rec(f1 + rest, ParseState::Unquoted, seq![f[0]], rec, acc)
                == parse_rec(rest, ParseState::Unquoted, f, rec, acc));
        }
    }
}

/// Consuming one rendered two-field record from a record boundary appends
/// exactly that record and returns to a record boundary.
proof fn lemma_record_parse(
    f0: Seq<char>,
    f1: Seq<char>,
    tail: Seq<char>,
    acc: Seq<Seq<Seq<char>>>,
)
    requires
        f1.len() > 0,
        !needs_quoting(f1),
    ensures
        parse_rec(render_record(seq![f0, f1]) + tail, ParseState::RecordStart,
            Seq::<char>::empty(), Seq::<Seq<char>>::empty(), acc)
            == parse_rec(tail, ParseState::RecordStart, Seq::<char>::empty(),
                Seq::<Seq<char>>::empty(), acc.push(seq![f0, f1])),
{
    let fs = seq![f0, f1];
    let rec0 = Seq::<Seq<char>>::empty();
    assert(fs.drop_first() =~= seq![f1]);
    assert(render_fields(fs) == quote_field(f0) + seq![','] + render_fields(seq![f1]));
    assert(render_fields(seq![f1]) == quote_field(f1));
    let rest1 = seq![','] + (quote_field(f1) + (seq!['\n'] + tail));
    assert(render_record(fs) + tail =~= quote_field(f0) + rest1);
    assert(rest1[0] == ',');
    lemma_field_parse(f0, rest1, ParseState::RecordStart, rec0, acc);
    let rest2 = seq!['\n'] + tail;
    assert(rest1.drop_first() =~= quote_field(f1) + rest2);
    assert(rest2[0] == '\n');
    lemma_field_parse(f1, rest2, ParseState::FieldStart, rec0.push(f0), acc);
    assert(rest2.drop_first() =~= tail);
    assert(rec0.push(f0).push(f1) =~= fs);
}

/// The flag text never needs quoting.
proof fn lemma_bool_chars_plain(b: bool)
    ensures
        bool_chars(b).len() > 0,
        !needs_quoting(bool_chars(b)),
{
    let f = bool_chars(b);
    assert(forall|i: int| 0 <= i < f.len()
        ==> f[i] != ',' && f[i] != '"' && f[i] != '\n' && f[i] != '\r');
}

/// The header's second field never needs quoting.
proof fn lemma_header_fields_plain()
    ensures
        header_fields().len() == 2,
        header_fields()[1].len() > 0,
        !needs_quoting(header_fields()[1]),
{
    let f = header_fields()[1];
    assert(forall|i: int| 0 <= i < f.len()
        ==> f[i] != ',' && f[i] != '"' && f[i] != '\n' && f[i] != '\r');
}

/// Parsing the rendering of a task sequence from a record boundary appends
/// exactly the encoded records.
proof fn lemma_tasks_parse(ts: Seq<TaskView>, acc: Seq<Seq<Seq<char>>>)
    ensures
        parse_rec(render_tasks(ts), ParseState::RecordStart, Seq::<char>::empty(),
            Seq::<Seq<char>>::empty(), acc)
            == Some(acc + ts.map_values(|t: TaskView| encode_spec(t))),
    decreases ts.len(),
{
    let enc = |t: TaskView| encode_spec(t);
    if ts.len() == 0 {
        assert(render_tasks(ts) == Seq::<char>::empty());
        assert(acc + ts.map_values(enc) =~= acc);
    } else {
        let t0 = ts[0];
        let ts1 = ts.drop_first();
        assert(render_tasks(ts) == render_record(encode_spec(t0)) + render_tasks(ts1));
        lemma_bool_chars_plain(t0.is_done);
        assert(encode_spec(t0) == seq![t0.title, bool_chars(t0.is_done)]);
        lemma_record_parse(t0.title, bool_chars(t0.is_done), render_tasks(ts1), acc);
        lemma_tasks_parse(ts1, acc.push(encode_spec(t0)));
        assert(acc.push(encode_spec(t0)) + ts1.map_values(enc) =~= acc + ts.map_values(enc));
    }
}

/// Parsing the whole rendered file yields the header record followed by the
/// encoded task records.
pub proof fn lemma_parse_render_file(ts: Seq<TaskView>)
    ensures
        parse_file(render_file(ts))
            == Some(seq![header_fields()] + ts.map_values(|t: TaskView| encode_spec(t))),
{
    let acc0 = Seq::<Seq<Seq<char>>>::empty();
    lemma_header_fields_plain();
    assert(header_fields() =~= seq![header_fields()[0], header_fields()[1]]);
    lemma_record_parse(header_fields()[0], header_fields()[1], render_tasks(ts), acc0);
    lemma_tasks_parse(ts, acc0.push(header_fields()));
    assert(acc0.push(header_fields()) + ts.map_values(|t: TaskView| encode_spec(t))
        =~= seq![header_fields()] + ts.map_values(|t: TaskView| encode_spec(t)));
}

/// Decoding the encodings of a task sequence gives back exactly the tasks.
proof fn lemma_decode_all_encoded(ts: Seq<TaskView>)
    ensures
        decode_all(ts.map_values(|t: TaskView| encode_spec(t)))
            == Ok::<Seq<TaskView>, DecodeError>(ts),
    decreases ts.len(),
{
    let enc = |t: TaskView| encode_spec(t);
    let recs = ts.map_values(enc);
    if ts.len() == 0 {
        assert(ts =~= Seq::<TaskView>::empty());
    } else {
        crate::codec::lemma_codec_round_trip(ts[0]);
        assert(recs[0] == encode_spec(ts[0]));
        assert(recs.drop_first() =~= ts.drop_first().map_values(enc));
        lemma_decode_all_encoded(ts.drop_first());
        assert(seq![ts[0]] + ts.drop_first() =~= ts);
    }
}

/// The central round trip: scanning the rendering of any task sequence,
/// titles with commas, quotes and line breaks included, yields exactly that
/// sequence.  Appending is rendering one more record (see
/// `lemma_render_file_push`), so appending tasks in order and scanning gives
/// them back in order.
pub proof fn lemma_scan_render_file(ts: Seq<TaskView>)
    ensures
        scan_spec(render_file(ts)) == Ok::<Seq<TaskView>, DecodeError>(ts),
{
    lemma_parse_render_file(ts);
    let enc = |t: TaskView| encode_spec(t);
    let recs = seq![header_fields()] + ts.map_values(enc);
    assert(recs.len() == 1 + ts.len());
    assert(recs.drop_first() =~= ts.map_values(enc));
    lemma_decode_all_encoded(ts);
}

/// The append-then-scan law, one step at a time: a store whose content
/// renders a task sequence, after one more appended record, scans to that
/// sequence with the new task at the end.
pub proof fn lemma_append_then_scan(ts: Seq<TaskView>, t: TaskView)
    ensures
        scan_spec(render_file(ts) + render_record(encode_spec(t)))
            == Ok::<Seq<TaskView>, DecodeError>(ts.push(t)),
{
    lemma_render_file_push(ts, t);
    lemma_scan_render_file(ts.push(t));
}

/// A fresh store holds only the header: scanning it yields no tasks.
pub proof fn lemma_fresh_scan_empty()
    ensures
        scan_spec(render_file(Seq::<TaskView>::empty()))
            == Ok::<Seq<TaskView>, DecodeError>(Seq::<TaskView>::empty()),
{
    lemma_scan_render_file(Seq::<TaskView>::empty());
}

/// Rendering a sequence with one task appended is the old rendering with
/// that task's record appended after it.
pub proof fn lemma_render_file_push(ts: Seq<TaskView>, t: TaskView)
    ensures
        render_file(ts.push(t)) == render_file(ts) + render_record(encode_spec(t)),
{
    lemma_render_tasks_push(ts, t);
    assert(render_file(ts.push(t)) =~= render_file(ts) + render_record(encode_spec(t)));
}

proof fn lemma_render_tasks_push(ts: Seq<TaskView>, t: TaskView)
    ensures
        render_tasks(ts.push(t)) == render_tasks(ts) + render_record(encode_spec(t)),
    decreases ts.len(),
{
    let tsp = ts.push(t);
    if ts.len() == 0 {
        assert(tsp.len() == 1);
        assert(tsp[0] == t);
        assert(tsp.drop_first() =~= Seq::<TaskView>::empty());
        assert(render_tasks(tsp.drop_first()) == Seq::<char>::empty());
        assert(render_tasks(tsp)
            == render_record(encode_spec(t)) + render_tasks(tsp.drop_first()));
        assert(render_tasks(tsp) =~= render_tasks(ts) + render_record(encode_spec(t)));
    } else {
        assert(tsp[0] == ts[0]);
        assert(tsp.drop_first() =~= ts.drop_first().push(t));
        lemma_render_tasks_push(ts.drop_first(), t);
        assert(render_tasks(tsp)
            == render_record(encode_spec(ts[0])) + render_tasks(ts.drop_first().push(t)));
        assert(render_tasks(ts)
            == render_record(encode_spec(ts[0])) + render_tasks(ts.drop_first()));
        assert(render_tasks(tsp) =~= render_tasks(ts) + render_record(encode_spec(t)));
    }
}

// ------------------------------------------------------------------
// The executable store
// ------------------------------------------------------------------

/// Why a store operation failed.
#[derive(Debug)]
pub enum StoreError {
    /// An operating-system failure reported by the caller's file handling.
    Io(String),
    /// The file's content did not scan as well-formed task records.
    Decode(DecodeError),
}

/// Relies on String::push: appends exactly one character at the end.
#[verifier::external_body]
fn push_char(s: &mut String, c: char)
    ensures
        final(s)@ == old(s)@ + seq![c],
{
    s.push(c);
}

/// Whether the field must be written quoted.
fn field_needs_quoting(f: &str) -> (b: bool)
    ensures
        b == needs_quoting(f@),
{
    let n = f.unicode_len();
    let mut i: usize = 0;
    while i < n
        invariant
            n == f@.len(),
            i <= n,
            forall|j: int| 0 <= j < i
                ==> f@[j] != ',' && f@[j] != '"' && f@[j] != '\n' && f@[j] != '\r',
        decreases n - i,
    {
        let c = f.get_char(i);
        if c == ',' || c == '"' || c == '\n' || c == '\r' {
            proof {
                assert(f@[i as int] == c);
            }
            return true;
        }
        i = i + 1;
    }
    proof {
        assert(!f@.contains(',') && !f@.contains('"') && !f@.contains('\n')
            && !f@.contains('\r'));
    }
    false
}

/// Escaping one more character extends the escaped text at the end.
proof fn lemma_escape_push(s: Seq<char>, c: char)
    ensures
        escape_quotes(s.push(c)) == escape_quotes(s)
            + (if c == '"' { seq!['"', '"'] } else { seq![c] }),
    decreases s.len(),
{
    let sp = s.push(c);
    let tail: Seq<char> = if c == '"' { seq!['"', '"'] } else { seq![c] };
    if s.len() == 0 {
        assert(sp[0] == c);
        assert(sp.drop_first() =~= Seq::<char>::empty());
        assert(escape_quotes(sp.drop_first()) == Seq::<char>::empty());
        assert(escape_quotes(sp) =~= escape_quotes(s) + tail);
    } else {
        assert(sp[0] == s[0]);
        assert(sp.drop_first() =~= s.drop_first().push(c));
        lemma_escape_push(s.drop_first(), c);
        assert(escape_quotes(sp) =~= escape_quotes(s) + tail);
    }
}

/// Appends one field to the output, quoted and escaped exactly when needed.
fn push_field(out: &mut String, f: &str)
    ensures
        final(out)@ == old(out)@ + quote_field(f@),
{
    if field_needs_quoting(f) {
        let ghost base = out@;
        push_char(out, '"');
        let n = f.unicode_len();
        let mut i: usize = 0;
        while i < n
            invariant
                n == f@.len(),
                i <= n,
                out@ == base + seq!['"'] + escape_quotes(f@.take(i as int)),
            decreases n - i,
        {
            let c = f.get_char(i);
            let ghost pre = f@.take(i as int);
            if c == '"' {
                push_char(out, '"');
                push_char(out, '"');
            } else {
                push_char(out, c);
            }
            proof {
                lemma_escape_push(pre, c);
                assert(f@.take(i + 1) =~= pre.push(c));
                if c == '"' {
                    assert(base + seq!['"'] + escape_quotes(pre) + seq!['"'] + seq!['"']
                        =~= base + seq!['"'] + escape_quotes(f@.take(i + 1)));
                } else {
                    assert(base + seq!['"'] + escape_quotes(pre) + seq![c]
                        =~= base + seq!['"'] + escape_quotes(f@.take(i + 1)));
                }
            }
            i = i + 1;
        }
        push_char(out, '"');
        proof {
            assert(f@.take(n as int) =~= f@);
            assert(base + seq!['"'] + escape_quotes(f@) + seq!['"']
                =~= base + (seq!['"'] + escape_quotes(f@) + seq!['"']));
        }
    } else {
        out.append(f);
    }
}

/// Appends one task's full record line to the output.
fn push_record(out: &mut String, task: &Task)
    ensures
        final(out)@ == old(out)@ + render_record(encode_spec(task@)),
{
    let ghost base = out@;
    push_field(out, task.title.as_str());
    push_char(out, ',');
    let flag = crate::codec::bool_string(task.is_done);
    push_field(out, flag.as_str());
    push_char(out, '\n');
    proof {
        lemma_bool_chars_plain(task.is_done);
        let fs = encode_spec(task@);
        assert(fs.drop_first() =~= seq![bool_chars(task.is_done)]);
        assert(render_fields(seq![bool_chars(task.is_done)])
            == quote_field(bool_chars(task.is_done)));
        assert(render_fields(fs)
            == quote_field(task.title@) + seq![','] + quote_field(bool_chars(task.is_done)));
        assert(base + quote_field(task.title@) + seq![','] + quote_field(flag@) + seq!['\n']
            =~= base + render_record(fs));
    }
}

/// The header line's text is exactly the rendering of the header record,
/// which is the whole file of an empty task sequence.
proof fn lemma_header_text()
    ensures
        "title,is_done\n"@ == render_file(Seq::<TaskView>::empty()),
{
    reveal_strlit("title,is_done\n");
    let f0 = header_fields()[0];
    let f1 = header_fields()[1];
    assert(forall|i: int| 0 <= i < f0.len()
        ==> f0[i] != ',' && f0[i] != '"' && f0[i] != '\n' && f0[i] != '\r');
    lemma_header_fields_plain();
    assert(header_fields().drop_first() =~= seq![f1]);
    assert(render_fields(seq![f1]) == quote_field(f1));
    assert(render_fields(header_fields()) == quote_field(f0) + seq![','] + quote_field(f1));
    assert(render_tasks(Seq::<TaskView>::empty()) == Seq::<char>::empty());
    assert("title,is_done\n"@ =~= render_file(Seq::<TaskView>::empty()));
}

/// A fresh file's content: the header line alone.
fn header_string() -> (r: String)
    ensures
        r@ == render_file(Seq::<TaskView>::empty()),
{
    let r = String::from_str("title,is_done\n");
    proof {
        lemma_header_text();
    }
    r
}

/// The store: the backing file's content as a value.  An absent file and an
/// empty file are the same state: both scan as no tasks once opened.
pub struct Store {
    content: String,
}

impl View for Store {
    type V = Seq<char>;

    closed spec fn view(&self) -> Seq<char> {
        self.content@
    }
}

impl Store {
    /// Opens the store on the file's current content, or on nothing if the
    /// file is absent; a missing or empty file gets the header written.
    pub fn open_or_create(existing: Option<String>) -> (s: Store)
        ensures
            match existing {
                Some(c) => if c@.len() > 0 {
                    s@ == c@
                } else {
                    s@ == render_file(Seq::<TaskView>::empty())
                },
                None => s@ == render_file(Seq::<TaskView>::empty()),
            },
    {
        match existing {
            Some(c) => {
                if !c.as_str().is_empty() {
                    Store { content: c }
                } else {
                    Store { content: header_string() }
                }
            },
            None => Store { content: header_string() },
        }
    }

    /// Appends one task's record at the end of the content.  The caller is
    /// responsible for flushing the new content durably to the file.
    pub fn append(&mut self, task: &Task)
        ensures
            final(self)@ == old(self)@ + render_record(encode_spec(task@)),
    {
        push_record(&mut self.content, task);
    }

    /// Replaces the whole content with a fresh header followed by the given
    /// tasks in the given order.
    pub fn rewrite_all(&mut self, tasks: &Vec<Task>)
        ensures
            final(self)@ == render_file(views_of(tasks@)),
    {
        self.content = header_string();
        let mut i: usize = 0;
        while i < tasks.len()
            invariant
                i <= tasks@.len(),
                self@ == render_file(views_of(tasks@).take(i as int)),
            decreases tasks@.len() - i,
        {
            push_record(&mut self.content, &tasks[i]);
            proof {
                let vs = views_of(tasks@);
                lemma_render_file_push(vs.take(i as int), vs[i as int]);
                assert(vs.take(i + 1) =~= vs.take(i as int).push(vs[i as int]));
            }
            i = i + 1;
        }
        proof {
            assert(views_of(tasks@).take(tasks@.len() as int) =~= views_of(tasks@));
        }
    }

    /// Reads every task out of the content in file order, skipping the
    /// header record.  A malformed text or a record that does not decode
    /// aborts the whole scan: no partial result is ever returned.
    pub fn scan(&self) -> (r: Result<Vec<Task>, StoreError>)
        ensures
            match r {
                Ok(ts) => scan_spec(self@) == Ok::<Seq<TaskView>, DecodeError>(views_of(ts@)),
                Err(StoreError::Decode(e)) => scan_spec(self@) == Err::<Seq<TaskView>, DecodeError>(e),
                Err(StoreError::Io(_)) => false,
            },
    {
        let ghost whole = self.content@;
        let n = self.content.as_str().unicode_len();
        let mut st = ParseState::RecordStart;
        let mut cur = String::new();
        let mut rec: Vec<String> = Vec::new();
        let mut recs: Vec<Vec<String>> = Vec::new();
        let mut i: usize = 0;
        proof {
            assert(whole.skip(0) =~= whole);
            assert(rec.deep_view() =~= Seq::<Seq<char>>::empty());
            assert(recs.deep_view() =~= Seq::<Seq<Seq<char>>>::empty());
        }
        while i < n
            invariant
                n == whole.len(),
                i <= n,
                self.content@ == whole,
                parse_rec(whole.skip(i as int), st, cur@, rec.deep_view(), recs.deep_view())
                    == parse_file(whole),
            decreases n - i,
        {
            let c = self.content.as_str().get_char(i);
            let ghost s_i = whole.skip(i as int);
            let ghost st0 = st;
            let ghost cur0 = cur@;
            let ghost rec0 = rec.deep_view();
            let ghost recs0 = recs.deep_view();
            proof {
                assert(s_i[0] == whole[i as int]);
                assert(s_i.drop_first() =~= whole.skip(i + 1));
            }
            match st {
                ParseState::RecordStart => {
                    if c == '\n' {
                        // an empty line between records carries nothing
                    } else if c == ',' {
                        rec.push(String::new());
                        cur = String::new();
                        st = ParseState::FieldStart;
                        proof {
                            assert(rec.deep_view() =~= rec0.push(Seq::<char>::empty()));
                        }
                    } else if c == '"' {
                        cur = String::new();
                        st = ParseState::Quoted;
                    } else {
                        cur = String::new();
                        push_char(&mut cur, c);
                        st = ParseState::Unquoted;
                        proof {
                            assert(cur@ =~= seq![c]);
                        }
                    }
                },
                ParseState::FieldStart => {
                    if c == '\n' {
                        rec.push(cur);
                        recs.push(rec);
                        rec = Vec::new();
                        cur = String::new();
                        st = ParseState::RecordStart;
                        proof {
                            assert(recs.deep_view() =~~= recs0.push(rec0.push(cur0)));
                            assert(rec.deep_view() =~= Seq::<Seq<char>>::empty());
                        }
                    } else if c == ',' {
                        rec.push(cur);
                        cur = String::new();
                        proof {
                            assert(rec.deep_view() =~= rec0.push(cur0));
                        }
                    } else if c == '"' {
                        cur = String::new();
                        st = ParseState::Quoted;
                    } else {
                        push_char(&mut cur, c);
                        st = ParseState::Unquoted;
                        proof {
                            assert(cur@ =~= cur0.push(c));
                        }
                    }
                },
                ParseState::Unquoted => {
                    if c == '\n' {
                        rec.push(cur);
                        recs.push(rec);
                        rec = Vec::new();
                        cur = String::new();
                        st = ParseState::RecordStart;
                        proof {
                            assert(recs.deep_view() =~~= recs0.push(rec0.push(cur0)));
                            assert(rec.deep_view() =~= Seq::<Seq<char>>::empty());
                        }
                    } else if c == ',' {
                        rec.push(cur);
                        cur = String::new();
                        st = ParseState::FieldStart;
                        proof {
                            assert(rec.deep_view() =~= rec0.push(cur0));
                        }
                    } else if c == '"' {
                        proof {
                            assert(parse_rec(s_i, st0, cur0, rec0, recs0)
                                == None::<Seq<Seq<Seq<char>>>>);
                        }
                        return Err(StoreError::Decode(DecodeError::Malformed));
                    } else {
                        push_char(&mut cur, c);
                        proof {
                            assert(cur@ =~= cur0.push(c));
                        }
                    }
                },
                ParseState::Quoted => {
                    if c == '"' {
                        st = ParseState::QuoteSeen;
                    } else {
                        push_char(&mut cur, c);
                        proof {
                            assert(cur@ =~= cur0.push(c));
                        }
                    }
                },
                ParseState::QuoteSeen => {
                    if c == '"' {
                        push_char(&mut cur, '"');
                        st = ParseState::Quoted;
                        proof {
                            assert(cur@ =~= cur0.push('"'));
                        }
                    } else if c == ',' {
                        rec.push(cur);
                        cur = String::new();
                        st = ParseState::FieldStart;
                        proof {
                            assert(rec.deep_view() =~= rec0.push(cur0));
                        }
                    } else if c == '\n' {
                        rec.push(cur);
                        recs.push(rec);
                        rec = Vec::new();
                        cur = String::new();
                        st = ParseState::RecordStart;
                        proof {
                            assert(recs.deep_view() =~~= recs0.push(rec0.push(cur0)));
                            assert(rec.deep_view() =~= Seq::<Seq<char>>::empty());
                        }
                    } else {
                        proof {
                            assert(parse_rec(s_i, st0, cur0, rec0, recs0)
                                == None::<Seq<Seq<Seq<char>>>>);
                        }
                        return Err(StoreError::Decode(DecodeError::Malformed));
                    }
                },
            }
            proof {
                assert(parse_rec(s_i, st0, cur0, rec0, recs0)
                    == parse_rec(whole.skip(i + 1), st, cur@, rec.deep_view(), recs.deep_view()));
            }
            i = i + 1;
        }
        proof {
            assert(whole.skip(n as int) =~= Seq::<char>::empty());
        }
        match st {
            ParseState::Quoted => {
                return Err(StoreError::Decode(DecodeError::Malformed));
            },
            ParseState::RecordStart => {},
            _ => {
                let ghost rec0 = rec.deep_view();
                let ghost recs0 = recs.deep_view();
                rec.push(cur);
                recs.push(rec);
                proof {
                    assert(recs.deep_view() =~~= recs0.push(rec0.push(cur@)));
                }
            },
        }
        let ghost allrecs = recs.deep_view();
        proof {
            assert(parse_file(whole) == Some(allrecs));
        }
        if recs.is_empty() {
            let r: Vec<Task> = Vec::new();
            proof {
                assert(allrecs.len() == 0);
                assert(views_of(r@) =~= Seq::<TaskView>::empty());
            }
            return Ok(r);
        }
        let _header = recs.remove(0);
        let ghost tail = allrecs.drop_first();
        proof {
            assert(recs.deep_view() =~= tail);
        }
        let mut tasks: Vec<Task> = Vec::new();
        proof {
            assert(views_of(tasks@) =~= Seq::<TaskView>::empty());
            if decode_all(tail) is Ok {
                assert(Seq::<TaskView>::empty() + decode_all(tail).unwrap()
                    =~= decode_all(tail).unwrap());
            }
        }
        while recs.len() > 0
            invariant
                self.content@ == whole,
                parse_file(whole) == Some(allrecs),
                allrecs.len() > 0,
                allrecs.drop_first() == tail,
                match decode_all(recs.deep_view()) {
                    Ok(ts) => decode_all(tail)
                        == Ok::<Seq<TaskView>, DecodeError>(views_of(tasks@) + ts),
                    Err(e) => decode_all(tail) == Err::<Seq<TaskView>, DecodeError>(e),
                },
            decreases recs.len(),
        {
            let ghost rcur = recs.deep_view();
            let fields = recs.remove(0);
            let ghost gf = fields.deep_view();
            proof {
                assert(gf == rcur[0]);
                assert(recs.deep_view() =~= rcur.drop_first());
                assert(fields@.map_values(|f: String| f@) =~= gf);
            }
            match Task::from_record(fields) {
                Ok(t) => {
                    let ghost done = views_of(tasks@);
                    tasks.push(t);
                    proof {
                        assert(decode_spec(rcur[0]) == Ok::<TaskView, DecodeError>(t@));
                        assert(views_of(tasks@) =~= done.push(t@));
                        match decode_all(rcur.drop_first()) {
                            Ok(ts) => {
                                assert(decode_all(rcur)
                                    == Ok::<Seq<TaskView>, DecodeError>(seq![t@] + ts));
                                assert(done.push(t@) + ts =~= done + (seq![t@] + ts));
                            },
                            Err(_) => {},
                        }
                    }
                },
                Err(e) => {
                    proof {
                        assert(decode_spec(rcur[0]) == Err::<TaskView, DecodeError>(e));
                        assert(decode_all(rcur) == Err::<Seq<TaskView>, DecodeError>(e));
                    }
                    return Err(StoreError::Decode(e));
                },
            }
        }
        proof {
            assert(recs.deep_view() =~= Seq::<Seq<Seq<char>>>::empty());
            assert(decode_all(recs.deep_view())
                == Ok::<Seq<TaskView>, DecodeError>(Seq::<TaskView>::empty()));
            assert(views_of(tasks@) + Seq::<TaskView>::empty() =~= views_of(tasks@));
        }
        Ok(tasks)
    }

    /// Forgets the whole content; the store reads as an absent file until it
    /// is opened again.
    pub fn reset(&mut self)
        ensures
            final(self)@ == Seq::<char>::empty(),
    {
        self.content = String::new();
    }

    /// The content as text, for the caller to persist.
    pub fn content(&self) -> (r: &String)
        ensures
            r@ == self@,
    {
        &self.content
    }
}

} // verus!
