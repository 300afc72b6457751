//! The log record model and the per-line parser.
//!
//! One log line is a JSON object of the fixed shape
//! `{"timestamp":"…","level":"…","fields":{"message":"…","target":"…"}}`,
//! with the keys in exactly that order and no interior whitespace, as the
//! node emits it. String bodies may use the escapes `\"`, `\\`, `\/`, `\b`,
//! `\f`, `\n`, `\t` and `\r`, and `\u00XX` for an ASCII code point (the
//! form the node's serializer emits for control characters). A line of any
//! other shape — startup noise, a partially written trailing line, an
//! unsupported escape — is not a record and is silently dropped by the
//! readers built on top of this parser.

use crate::bytes::match_at;
use vstd::prelude::*;

verus! {

broadcast use vstd::slice::group_slice_axioms;

pub const QUOTE: u8 = 34;

pub const BACKSLASH: u8 = 92;

/// One parsed log line.
pub struct LogRecord {
    pub timestamp: Vec<u8>,
    pub level: Vec<u8>,
    pub message: Vec<u8>,
    pub target: Vec<u8>,
}

/// The mathematical image of a `LogRecord`.
pub struct RecordView {
    pub timestamp: Seq<u8>,
    pub level: Seq<u8>,
    pub message: Seq<u8>,
    pub target: Seq<u8>,
}

impl View for LogRecord {
    type V = RecordView;

    open spec fn view(&self) -> RecordView {
        RecordView {
            timestamp: self.timestamp@,
            level: self.level@,
            message: self.message@,
            target: self.target@,
        }
    }
}

/// The byte an escape sequence `\x` stands for, if `x` is a supported
/// one-character escape.
pub open spec fn escape_char(b: u8) -> Option<u8> {
    if b == QUOTE {
        Some(QUOTE)
    } else if b == BACKSLASH {
        Some(BACKSLASH)
    } else if b == 47 {
        Some(47)
    } else if b == 98 {
        Some(8)
    } else if b == 102 {
        Some(12)
    } else if b == 110 {
        Some(10)
    } else if b == 116 {
        Some(9)
    } else if b == 114 {
        Some(13)
    } else {
        None
    }
}

pub open spec fn is_hex(b: u8) -> bool {
    (48 <= b <= 57) || (97 <= b <= 102) || (65 <= b <= 70)
}

pub open spec fn hex_val(b: u8) -> nat {
    if 48 <= b <= 57 {
        (b - 48) as nat
    } else if 97 <= b <= 102 {
        (b - 87) as nat
    } else if 65 <= b <= 70 {
        (b - 55) as nat
    } else {
        0
    }
}

/// A `\u00XX` escape starting at the backslash at `i`, naming an ASCII
/// code point.
pub open spec fn unicode_escape_ok(s: Seq<u8>, i: int) -> bool {
    &&& i + 5 < s.len()
    &&& s[i + 2] == 48
    &&& s[i + 3] == 48
    &&& is_hex(s[i + 4])
    &&& hex_val(s[i + 4]) <= 7
    &&& is_hex(s[i + 5])
}

/// The byte a `\u00XX` escape stands for, `piece` starting at its
/// backslash.
pub open spec fn unicode_byte(piece: Seq<u8>) -> u8 {
    (hex_val(piece[4]) * 16 + hex_val(piece[5])) as u8
}

/// Index of the quote closing a string body that starts at `i`, skipping
/// escape pairs; `None` when the body runs off the line or holds an
/// unsupported escape.
pub open spec fn body_end(s: Seq<u8>, i: int) -> Option<int>
    decreases s.len() - i + 1,
{
    if i < 0 || i >= s.len() {
        None
    } else if s[i] == QUOTE {
        Some(i)
    } else if s[i] == BACKSLASH {
        if i + 1 < s.len() && s[i + 1] == 117 {
            if unicode_escape_ok(s, i) {
                body_end(s, i + 6)
            } else {
                None
            }
        } else if i + 1 < s.len() && escape_char(s[i + 1]) is Some {
            body_end(s, i + 2)
        } else {
            None
        }
    } else {
        body_end(s, i + 1)
    }
}

/// The text a string body stands for, with escape pairs replaced.
pub open spec fn unescape(s: Seq<u8>) -> Seq<u8>
    decreases s.len(),
{
    if s.len() == 0 {
        Seq::empty()
    } else if s[0] == BACKSLASH && s.len() >= 2 {
        if s[1] == 117 {
            if s.len() >= 6 {
                seq![unicode_byte(s)] + unescape(s.skip(6))
            } else {
                unescape(s.skip(2))
            }
        } else {
            match escape_char(s[1]) {
                Some(c) => seq![c] + unescape(s.skip(2)),
                None => unescape(s.skip(2)),
            }
        }
    } else {
        seq![s[0]] + unescape(s.skip(1))
    }
}

/// Parse the string whose body starts at `i` (just after its opening
/// quote): the unescaped content, and the index just past the closing quote.
pub open spec fn scan_string(s: Seq<u8>, i: int) -> Option<(Seq<u8>, int)> {
    match body_end(s, i) {
        Some(e) => Some((unescape(s.subrange(i, e)), e + 1)),
        None => None,
    }
}

pub open spec fn tag_timestamp() -> Seq<u8> {
    seq![123u8, 34, 116, 105, 109, 101, 115, 116, 97, 109, 112, 34, 58, 34]
}

pub open spec fn tag_level() -> Seq<u8> {
    seq![44u8, 34, 108, 101, 118, 101, 108, 34, 58, 34]
}

pub open spec fn tag_fields() -> Seq<u8> {
    seq![
        44u8,
        34,
        102,
        105,
        101,
        108,
        100,
        115,
        34,
        58,
        123,
        34,
        109,
        101,
        115,
        115,
        97,
        103,
        101,
        34,
        58,
        34,
    ]
}

pub open spec fn tag_target() -> Seq<u8> {
    seq![44u8, 34, 116, 97, 114, 103, 101, 116, 34, 58, 34]
}

/// The record a log line stands for, or `None` when the line does not have
/// the fixed shape.
pub open spec fn parse_record(line: Seq<u8>) -> Option<RecordView> {
    if !match_at(line, tag_timestamp(), 0) {
        None
    } else {
        match scan_string(line, tag_timestamp().len() as int) {
            None => None,
            Some((ts, i1)) => if !match_at(line, tag_level(), i1) {
                None
            } else {
                match scan_string(line, i1 + tag_level().len()) {
                    None => None,
                    Some((lvl, i2)) => if !match_at(line, tag_fields(), i2) {
                        None
                    } else {
                        match scan_string(line, i2 + tag_fields().len()) {
                            None => None,
                            Some((msg, i3)) => if !match_at(line, tag_target(), i3) {
                                None
                            } else {
                                match scan_string(line, i3 + tag_target().len()) {
                                    None => None,
                                    Some((tgt, i4)) => if i4 + 2 == line.len() && line[i4] == 125
                                        && line[i4 + 1] == 125 {
                                        Some(
                                            RecordView {
                                                timestamp: ts,
                                                level: lvl,
                                                message: msg,
                                                target: tgt,
                                            },
                                        )
                                    } else {
                                        None
                                    },
                                }
                            },
                        }
                    },
                }
            },
        }
    }
}

/// A closed string body lies between its start and its closing quote.
proof fn lemma_body_end_ge(s: Seq<u8>, i: int)
    requires
        body_end(s, i) is Some,
    ensures
        i <= body_end(s, i).unwrap() < s.len(),
        s[body_end(s, i).unwrap()] == QUOTE,
    decreases s.len() - i + 1,
{
    if s[i] == QUOTE {
    } else if s[i] == BACKSLASH {
        if i + 1 < s.len() && s[i + 1] == 117 {
            lemma_body_end_ge(s, i + 6);
        } else {
            lemma_body_end_ge(s, i + 2);
        }
    } else {
        lemma_body_end_ge(s, i + 1);
    }
}

/// Exec form of `escape_char`.
fn escape_char_exec(b: u8) -> (r: Option<u8>)
    ensures
        r == escape_char(b),
{
    if b == QUOTE {
        Some(QUOTE)
    } else if b == BACKSLASH {
        Some(BACKSLASH)
    } else if b == 47 {
        Some(47)
    } else if b == 98 {
        Some(8)
    } else if b == 102 {
        Some(12)
    } else if b == 110 {
        Some(10)
    } else if b == 116 {
        Some(9)
    } else if b == 114 {
        Some(13)
    } else {
        None
    }
}

/// Exec form of `is_hex`.
fn is_hex_byte(b: u8) -> (r: bool)
    ensures
        r == is_hex(b),
{
    (48 <= b && b <= 57) || (97 <= b && b <= 102) || (65 <= b && b <= 70)
}

/// Exec form of `hex_val`.
fn hex_val_byte(b: u8) -> (r: u8)
    ensures
        r == hex_val(b),
        r <= 15,
{
    if 48 <= b && b <= 57 {
        b - 48
    } else if 97 <= b && b <= 102 {
        b - 87
    } else if 65 <= b && b <= 70 {
        b - 55
    } else {
        0
    }
}

/// Find the closing quote of the string body starting at `start`.
fn scan_body_end(s: &[u8], start: usize) -> (r: Option<usize>)
    ensures
        match r {
            Some(e) => body_end(s@, start as int) == Some(e as int),
            None => body_end(s@, start as int) is None,
        },
{
    let sl: usize = s.len();
    let mut cur: usize = start;
    while cur < sl
        invariant
            start <= cur,
            s@.len() == sl,
            body_end(s@, start as int) == body_end(s@, cur as int),
        decreases sl - cur,
    {
        let b = s[cur];
        if b == QUOTE {
            return Some(cur);
        } else if b == BACKSLASH {
            if cur + 1 >= sl {
                return None;
            }
            if s[cur + 1] == 117 {
                if !(sl - cur > 5 && s[cur + 2] == 48 && s[cur + 3] == 48 && is_hex_byte(
                    s[cur + 4],
                ) && s[cur + 4] != 56 && s[cur + 4] != 57 && hex_val_byte(s[cur + 4]) <= 7
                    && is_hex_byte(s[cur + 5])) {
                    return None;
                }
                cur = cur + 6;
            } else {
                if escape_char_exec(s[cur + 1]).is_none() {
                    return None;
                }
                cur = cur + 2;
            }
        } else {
            cur = cur + 1;
        }
    }
    None
}

/// Unescape the string body `s[start..end]`, which is known to be closed by
/// the quote at `end`.
fn unescape_range(s: &[u8], start: usize, end: usize) -> (r: Vec<u8>)
    requires
        body_end(s@, start as int) == Some(end as int),
    ensures
        r@ == unescape(s@.subrange(start as int, end as int)),
{
    proof {
        lemma_body_end_ge(s@, start as int);
    }
    let mut acc: Vec<u8> = Vec::new();
    let mut cur: usize = start;
    while cur < end
        invariant
            start <= cur <= end < s@.len(),
            body_end(s@, cur as int) == Some(end as int),
            unescape(s@.subrange(start as int, end as int)) == acc@ + unescape(
                s@.subrange(cur as int, end as int),
            ),
        decreases end - cur,
    {
        let ghost piece = s@.subrange(cur as int, end as int);
        let b = s[cur];
        proof {
            assert(piece[0] == s@[cur as int]);
        }
        if b == BACKSLASH {
            proof {
                assert(cur + 1 < s@.len());
            }
            if s[cur + 1] == 117 {
                proof {
                    lemma_body_end_ge(s@, cur + 6);
                    assert(piece.len() >= 6);
                    assert(piece[1] == s@[cur + 1]);
                    assert(piece[4] == s@[cur + 4]);
                    assert(piece[5] == s@[cur + 5]);
                    assert(piece.skip(6) =~= s@.subrange(cur + 6, end as int));
                }
                let c = hex_val_byte(s[cur + 4]) * 16 + hex_val_byte(s[cur + 5]);
                acc.push(c);
                proof {
                    assert(c == unicode_byte(piece));
                    assert(acc@ + unescape(s@.subrange(cur + 6, end as int)) =~= acc@.drop_last()
                        + (seq![c] + unescape(s@.subrange(cur + 6, end as int))));
                }
                cur = cur + 6;
            } else {
                proof {
                    lemma_body_end_ge(s@, cur + 2);
                    assert(piece.len() >= 2);
                    assert(piece[1] == s@[cur + 1]);
                    assert(piece.skip(2) =~= s@.subrange(cur + 2, end as int));
                }
                let c = escape_char_exec(s[cur + 1]).unwrap();
                acc.push(c);
                proof {
                    assert(acc@ + unescape(s@.subrange(cur + 2, end as int)) =~= acc@.drop_last()
                        + (seq![c] + unescape(s@.subrange(cur + 2, end as int))));
                }
                cur = cur + 2;
            }
        } else {
            proof {
                assert(piece.skip(1) =~= s@.subrange(cur + 1, end as int));
            }
            acc.push(b);
            proof {
                assert(acc@ + unescape(s@.subrange(cur + 1, end as int)) =~= acc@.drop_last() + (
                seq![b] + unescape(s@.subrange(cur + 1, end as int))));
            }
            cur = cur + 1;
        }
    }
    proof {
        assert(unescape(s@.subrange(end as int, end as int)) =~= Seq::<u8>::empty());
        assert(acc@ + Seq::<u8>::empty() =~= acc@);
    }
    acc
}

/// Whether `tag` occupies `line[pos ..]`; false when it would run past the
/// end.
fn expect_tag(line: &[u8], pos: usize, tag: &[u8]) -> (r: bool)
    ensures
        r == match_at(line@, tag@, pos as int),
{
    if pos > line.len() || line.len() - pos < tag.len() {
        return false;
    }
    crate::bytes::starts_with_at(line, pos, tag)
}

fn tag_timestamp_exec() -> (v: Vec<u8>)
    ensures
        v@ == tag_timestamp(),
{
    let mut v: Vec<u8> = Vec::new();
    v.push(123);
    v.push(34);
    v.push(116);
    v.push(105);
    v.push(109);
    v.push(101);
    v.push(115);
    v.push(116);
    v.push(97);
    v.push(109);
    v.push(112);
    v.push(34);
    v.push(58);
    v.push(34);
    proof {
        assert(v@ =~= tag_timestamp());
    }
    v
}

fn tag_level_exec() -> (v: Vec<u8>)
    ensures
        v@ == tag_level(),
{
    let mut v: Vec<u8> = Vec::new();
    v.push(44);
    v.push(34);
    v.push(108);
    v.push(101);
    v.push(118);
    v.push(101);
    v.push(108);
    v.push(34);
    v.push(58);
    v.push(34);
    proof {
        assert(v@ =~= tag_level());
    }
    v
}

fn tag_fields_exec() -> (v: Vec<u8>)
    ensures
        v@ == tag_fields(),
{
    let mut v: Vec<u8> = Vec::new();
    v.push(44);
    v.push(34);
    v.push(102);
    v.push(105);
    v.push(101);
    v.push(108);
    v.push(100);
    v.push(115);
    v.push(34);
    v.push(58);
    v.push(123);
    v.push(34);
    v.push(109);
    v.push(101);
    v.push(115);
    v.push(115);
    v.push(97);
    v.push(103);
    v.push(101);
    v.push(34);
    v.push(58);
    v.push(34);
    proof {
        assert(v@ =~= tag_fields());
    }
    v
}

fn tag_target_exec() -> (v: Vec<u8>)
    ensures
        v@ == tag_target(),
{
    let mut v: Vec<u8> = Vec::new();
    v.push(44);
    v.push(34);
    v.push(116);
    v.push(97);
    v.push(114);
    v.push(103);
    v.push(101);
    v.push(116);
    v.push(34);
    v.push(58);
    v.push(34);
    proof {
        assert(v@ =~= tag_target());
    }
    v
}

/// Parse one log line into a record; `None` for a line of any other shape.
pub fn parse_record_exec(line: &[u8]) -> (r: Option<LogRecord>)
    ensures
        match r {
            Some(rec) => parse_record(line@) == Some(rec@),
            None => parse_record(line@) is None,
        },
{
    let ll: usize = line.len();
    proof {
        assert(line@.len() == ll);
    }
    let t1 = tag_timestamp_exec();
    if !expect_tag(line, 0, t1.as_slice()) {
        return None;
    }
    let e1 = match scan_body_end(line, t1.len()) {
        Some(e) => e,
        None => {
            return None;
        },
    };
    proof {
        lemma_body_end_ge(line@, t1@.len() as int);
    }
    let ts = unescape_range(line, t1.len(), e1);
    let i1 = e1 + 1;

    let t2 = tag_level_exec();
    if !expect_tag(line, i1, t2.as_slice()) {
        return None;
    }
    let e2 = match scan_body_end(line, i1 + t2.len()) {
        Some(e) => e,
        None => {
            return None;
        },
    };
    proof {
        lemma_body_end_ge(line@, i1 + t2@.len());
    }
    let lvl = unescape_range(line, i1 + t2.len(), e2);
    let i2 = e2 + 1;

    let t3 = tag_fields_exec();
    if !expect_tag(line, i2, t3.as_slice()) {
        return None;
    }
    let e3 = match scan_body_end(line, i2 + t3.len()) {
        Some(e) => e,
        None => {
            return None;
        },
    };
    proof {
        lemma_body_end_ge(line@, i2 + t3@.len());
    }
    let msg = unescape_range(line, i2 + t3.len(), e3);
    let i3 = e3 + 1;

    let t4 = tag_target_exec();
    if !expect_tag(line, i3, t4.as_slice()) {
        return None;
    }
    let e4 = match scan_body_end(line, i3 + t4.len()) {
        Some(e) => e,
        None => {
            return None;
        },
    };
    proof {
        lemma_body_end_ge(line@, i3 + t4@.len());
    }
    let tgt = unescape_range(line, i3 + t4.len(), e4);
    let i4 = e4 + 1;

    if !(line.len() - i4 == 2 && line[i4] == 125 && line[i4 + 1] == 125) {
        return None;
    }
    Some(LogRecord { timestamp: ts, level: lvl, message: msg, target: tgt })
}

} // verus!
