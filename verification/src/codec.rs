//! The record codec: a task to and from its two text fields.
//!
//! A record is an ordered pair of fields: the title first, then the flag
//! rendered as `true` or `false`.  Decoding rejects a field count other than
//! two and a second field that is neither `true` nor `false`.

use vstd::prelude::*;
use crate::task::{Task, TaskView};

verus! {

/// Why a record failed to decode.
#[derive(Clone, Copy, Debug, PartialEq, Eq, Structural)]
pub enum DecodeError {
    /// The record does not have exactly two fields.
    FieldCount,
    /// The second field is neither `true` nor `false`.
    Flag,
    /// The file's text is not a well-formed sequence of delimited records.
    Malformed,
}

impl DecodeError {
    /// A human-readable description of the failure.
    pub fn reason(&self) -> (r: &'static str)
        ensures
            r@ == self.reason_spec(),
    {
        match self {
            DecodeError::FieldCount => "record does not have exactly two fields",
            DecodeError::Flag => "completion flag is neither true nor false",
            DecodeError::Malformed => "file is not a well-formed record sequence",
        }
    }

    pub open spec fn reason_spec(&self) -> Seq<char> {
        match self {
            DecodeError::FieldCount => "record does not have exactly two fields"@,
            DecodeError::Flag => "completion flag is neither true nor false"@,
            DecodeError::Malformed => "file is not a well-formed record sequence"@,
        }
    }
}

/// The characters of the textual form of a flag.
pub open spec fn bool_chars(b: bool) -> Seq<char> {
    if b {
        seq!['t', 'r', 'u', 'e']
    } else {
        seq!['f', 'a', 'l', 's', 'e']
    }
}

/// The two fields that encode a task: title first, then the flag's text.
pub open spec fn encode_spec(t: TaskView) -> Seq<Seq<char>> {
    seq![t.title, bool_chars(t.is_done)]
}

/// What decoding a field sequence yields: a task, or the error owed to it.
pub open spec fn decode_spec(fields: Seq<Seq<char>>) -> Result<TaskView, DecodeError> {
    if fields.len() != 2 {
        Err(DecodeError::FieldCount)
    } else if fields[1] == bool_chars(true) {
        Ok(TaskView { title: fields[0], is_done: true })
    } else if fields[1] == bool_chars(false) {
        Ok(TaskView { title: fields[0], is_done: false })
    } else {
        Err(DecodeError::Flag)
    }
}

/// The textual form of a flag.
pub fn bool_string(b: bool) -> (r: String)
    ensures
        r@ == bool_chars(b),
{
    proof {
        reveal_strlit("true");
        reveal_strlit("false");
    }
    if b {
        let r = String::from_str("true");
        proof {
            assert(r@ =~= bool_chars(true));
        }
        r
    } else {
        let r = String::from_str("false");
        proof {
            assert(r@ =~= bool_chars(false));
        }
        r
    }
}

impl Task {
    /// Encodes the task as its ordered pair of fields.
    pub fn to_record(self) -> (r: Vec<String>)
        ensures
            r@.map_values(|f: String| f@) == encode_spec(self@),
    {
        let is_done = self.is_done;
        let mut r: Vec<String> = Vec::new();
        r.push(self.title);
        r.push(bool_string(is_done));
        proof {
            assert(r@.map_values(|f: String| f@) =~= encode_spec(self@));
        }
        r
    }

    /// Decodes an ordered field sequence back into a task.
    pub fn from_record(mut fields: Vec<String>) -> (r: Result<Task, DecodeError>)
        ensures
            match r {
                Ok(t) => decode_spec(fields@.map_values(|f: String| f@)) == Ok::<TaskView, DecodeError>(t@),
                Err(e) => decode_spec(fields@.map_values(|f: String| f@)) == Err::<TaskView, DecodeError>(e),
            },
    {
        let ghost fs = fields@.map_values(|f: String| f@);
        if fields.len() != 2 {
            return Err(DecodeError::FieldCount);
        }
        let flag = fields.pop().unwrap();
        let title = fields.pop().unwrap();
        proof {
            assert(fs[0] == title@);
            assert(fs[1] == flag@);
        }
        let t = bool_string(true);
        let f = bool_string(false);
        if flag == t {
            Ok(Task { title, is_done: true })
        } else if flag == f {
            Ok(Task { title, is_done: false })
        } else {
            Err(DecodeError::Flag)
        }
    }
}

/// Round trip at the record level: decoding the encoding of any task, with
/// any title, gives back exactly that task.
pub proof fn lemma_codec_round_trip(t: TaskView)
    ensures
        decode_spec(encode_spec(t)) == Ok::<TaskView, DecodeError>(t),
{
    assert(bool_chars(true).len() != bool_chars(false).len());
}

} // verus!
