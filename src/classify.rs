//! Classification of trace lines: ignored, invalid, or a decoded frame.
use vstd::prelude::*;

use crate::decode::{MAX_IDENTIFIER, decode_hex_bytes, identifier_of_span, identifier_spec, payload_spec};
use crate::text::{chars_of, string_of_span, strip_parens, token_spans, tokens, trim, trim_span};

verus! {

/// One decoded trace frame. The timestamp is kept as the text of the timestamp
/// token with its parentheses removed; reading it as a number is the caller's part.
pub struct CANFrame {
    pub timestamp: String,
    pub iface: String,
    pub id: u32,
    pub data: Vec<u8>,
    pub raw: String,
    pub line_no: usize,
}

/// What a `CANFrame` holds, as mathematical values.
pub struct FrameModel {
    pub timestamp: Seq<char>,
    pub iface: Seq<char>,
    pub id: u32,
    pub data: Seq<u8>,
    pub raw: Seq<char>,
    pub line_no: nat,
}

impl View for CANFrame {
    type V = FrameModel;

    open spec fn view(&self) -> FrameModel {
        FrameModel {
            timestamp: self.timestamp@,
            iface: self.iface@,
            id: self.id,
            data: self.data@,
            raw: self.raw@,
            line_no: self.line_no as nat,
        }
    }
}

/// How one line is classified, before its timestamp is read as a number.
pub enum LineClass {
    Ignored,
    Invalid,
    Candidate(CANFrame),
}

/// What a `LineClass` holds, as mathematical values.
pub enum LineModel {
    Ignored,
    Invalid,
    Candidate(FrameModel),
}

impl View for LineClass {
    type V = LineModel;

    open spec fn view(&self) -> LineModel {
        match self {
            LineClass::Ignored => LineModel::Ignored,
            LineClass::Invalid => LineModel::Invalid,
            LineClass::Candidate(f) => LineModel::Candidate(f@),
        }
    }
}

pub open spec fn is_first_hash(s: Seq<char>, i: int) -> bool {
    0 <= i < s.len() && s[i] == '#' && forall|j: int| 0 <= j < i ==> s[j] != '#'
}

/// `s` split at its first `#` into the parts before and after it.
pub open spec fn split_hash(s: Seq<char>) -> Option<(Seq<char>, Seq<char>)> {
    if exists|i: int| is_first_hash(s, i) {
        let i = choose|i: int| is_first_hash(s, i);
        Some((s.subrange(0, i), s.subrange(i + 1, s.len() as int)))
    } else {
        None
    }
}

/// Whether a line, once trimmed, is blank or a comment.
pub open spec fn is_ignored_line(line: Seq<char>) -> bool {
    trim(line).len() == 0 || trim(line)[0] == '#'
}

/// The class of `line`, the `line_no`-th line of its file.
pub open spec fn classify_spec(line: Seq<char>, line_no: nat) -> LineModel {
    let t = trim(line);
    if is_ignored_line(line) {
        LineModel::Ignored
    } else if tokens(t).len() != 3 {
        LineModel::Invalid
    } else {
        let toks = tokens(t);
        match split_hash(toks[2]) {
            None => LineModel::Invalid,
            Some(parts) => match identifier_spec(parts.0) {
                None => LineModel::Invalid,
                Some(id) => match payload_spec(parts.1) {
                    Err(_) => LineModel::Invalid,
                    Ok(data) => LineModel::Candidate(
                        FrameModel {
                            timestamp: strip_parens(toks[0]),
                            iface: toks[1],
                            id,
                            data,
                            raw: t,
                            line_no,
                        },
                    ),
                },
            },
        }
    }
}

/// The first `#` in `cs[lo..hi]`, if any.
fn find_hash(cs: &Vec<char>, lo: usize, hi: usize) -> (r: Option<usize>)
    requires
        lo <= hi <= cs@.len(),
    ensures
        r is Some ==> lo <= r->Some_0 < hi && is_first_hash(
            cs@.subrange(lo as int, hi as int),
            r->Some_0 - lo,
        ),
        r is None ==> forall|j: int| lo <= j < hi ==> cs@[j] != '#',
{
    let mut i: usize = lo;
    while i < hi
        invariant
            lo <= i <= hi <= cs@.len(),
            forall|j: int| lo <= j < i ==> cs@[j] != '#',
        decreases hi - i,
    {
        if cs[i] == '#' {
            return Some(i);
        }
        i = i + 1;
    }
    None
}

/// Classifies the line `cs[lo..hi]`, the `line_no`-th of its file.
pub fn classify_span(cs: &Vec<char>, lo: usize, hi: usize, line_no: usize) -> (r: LineClass)
    requires
        lo <= hi <= cs@.len(),
    ensures
        r@ == classify_spec(cs@.subrange(lo as int, hi as int), line_no as nat),
{
    let ghost line = cs@.subrange(lo as int, hi as int);
    let (a, b) = trim_span(cs, lo, hi, false);
    let ghost t = cs@.subrange(a as int, b as int);
    if a == b || cs[a] == '#' {
        return LineClass::Ignored;
    }
    let spans = token_spans(cs, a, b);
    if spans.len() != 3 {
        return LineClass::Invalid;
    }
    let ghost toks = tokens(t);
    let (ts_lo, ts_hi) = spans[0];
    let (if_lo, if_hi) = spans[1];
    let (id_lo, id_hi) = spans[2];
    let ghost tok2 = toks[2];
    assert(tok2 == cs@.subrange(id_lo as int, id_hi as int));
    let hash = match find_hash(cs, id_lo, id_hi) {
        None => {
            assert(!exists|i: int| is_first_hash(tok2, i)) by {
                assert forall|i: int| !is_first_hash(tok2, i) by {
                    if 0 <= i < tok2.len() {
                        assert(tok2[i] == cs@[id_lo + i]);
                    }
                }
            }
            return LineClass::Invalid;
        },
        Some(h) => h,
    };
    proof {
        let k = hash - id_lo;
        assert(is_first_hash(tok2, k));
        let c = choose|i: int| is_first_hash(tok2, i);
        assert(c == k) by {
            if c < k {
                assert(tok2[c] == '#');
            } else if c > k {
                assert(tok2[k] == '#');
            }
        }
        assert(tok2.subrange(0, k) =~= cs@.subrange(id_lo as int, hash as int));
        assert(tok2.subrange(k + 1, tok2.len() as int) =~= cs@.subrange(hash + 1, id_hi as int));
    }
    let id = match identifier_of_span(cs, id_lo, hash) {
        None => {
            return LineClass::Invalid;
        },
        Some(v) => v,
    };
    let payload = string_of_span(cs, hash + 1, id_hi);
    let data = match decode_hex_bytes(payload.as_str()) {
        Err(_) => {
            return LineClass::Invalid;
        },
        Ok(v) => v,
    };
    let (p_lo, p_hi) = trim_span(cs, ts_lo, ts_hi, true);
    let frame = CANFrame {
        timestamp: string_of_span(cs, p_lo, p_hi),
        iface: string_of_span(cs, if_lo, if_hi),
        id,
        data,
        raw: string_of_span(cs, a, b),
        line_no,
    };
    LineClass::Candidate(frame)
}

/// Classifies one line of a trace file, the `line_no`-th.
pub fn classify_line(line: &str, line_no: usize) -> (r: LineClass)
    ensures
        r@ == classify_spec(line@, line_no as nat),
{
    let cs = chars_of(line);
    assert(cs@.subrange(0, cs@.len() as int) =~= line@);
    classify_span(&cs, 0, cs.len(), line_no)
}

/// A line that is blank once trimmed, or whose first non-blank character is `#`,
/// is ignored, whatever follows; no other line is.
pub proof fn lemma_blank_or_comment_ignored(line: Seq<char>, line_no: nat)
    ensures
        classify_spec(line, line_no) is Ignored <==> is_ignored_line(line),
{
}

/// A line that is not ignored and does not have exactly three tokens is invalid.
pub proof fn lemma_token_count_must_be_three(line: Seq<char>, line_no: nat)
    requires
        !is_ignored_line(line),
        tokens(trim(line)).len() != 3,
    ensures
        classify_spec(line, line_no) is Invalid,
{
}

/// The frame of a candidate line carries the line's number, an identifier of at
/// most 29 bits and at most eight payload bytes.
pub proof fn lemma_candidate_fields(line: Seq<char>, line_no: nat)
    ensures
        classify_spec(line, line_no) matches LineModel::Candidate(f) ==> f.line_no == line_no
            && f.id <= MAX_IDENTIFIER && f.data.len() <= 8,
{
}

} // verus!
