//! The log telemetry reader: derives the block and step metric series from
//! the node's log content.
//!
//! Every operation re-derives its result from the full content it is handed;
//! nothing is cached, so two reads of unchanged content always agree. A line
//! that is not a well-formed record is silently skipped; a field the caller
//! explicitly asked for (a block's transaction count, its embedded
//! timestamp, a step count) that cannot be parsed is a format-contract
//! violation and is reported as a `MetricError` naming the offending entry.

use crate::bytes::{
    digits_val, find_byte_from, find_from, find_sub, has_sub, is_ws, spec_parse_u32, spec_parse_u64,
};
use crate::instant::parse_instant;
use crate::lines::split_lines;
use crate::record::parse_record;
use vstd::prelude::*;

verus! {

broadcast use vstd::slice::group_slice_axioms;

/// A format-contract violation in a field the caller asked for. The payload
/// is the index of the offending entry: for the block metrics, the position
/// in the block event sequence; for the step metric, the line number in the
/// file.
#[derive(Clone, Copy, Debug, PartialEq, Eq, Structural)]
pub enum MetricError {
    BlockSize { index: usize },
    BlockTime { index: usize },
    Steps { line: usize },
}

/// The block-mined marker: the pickaxe glyph (with variation selector),
/// a space, and the word `Block`, as UTF-8 bytes.
pub open spec fn block_marker() -> Seq<u8> {
    seq![226u8, 155, 143, 239, 184, 143, 32, 66, 108, 111, 99, 107]
}

/// The marker ` transactions`: the transaction count ends right before it.
pub open spec fn tx_marker() -> Seq<u8> {
    seq![32u8, 116, 114, 97, 110, 115, 97, 99, 116, 105, 111, 110, 115]
}

/// The marker `Transaction resource usage: Steps: `.
pub open spec fn steps_marker() -> Seq<u8> {
    seq![
        84u8,
        114,
        97,
        110,
        115,
        97,
        99,
        116,
        105,
        111,
        110,
        32,
        114,
        101,
        115,
        111,
        117,
        114,
        99,
        101,
        32,
        117,
        115,
        97,
        103,
        101,
        58,
        32,
        83,
        116,
        101,
        112,
        115,
        58,
        32,
    ]
}

/// The delimiter ` | ` that closes a step count.
pub open spec fn steps_delim() -> Seq<u8> {
    seq![32u8, 124, 32]
}

/// A message reports a mined block.
pub open spec fn is_block_msg(m: Seq<u8>) -> bool {
    has_sub(m, block_marker())
}

/// The messages of the parseable records among `lines` that report a mined
/// block, in order.
pub open spec fn block_msgs(lines: Seq<Seq<u8>>) -> Seq<Seq<u8>>
    decreases lines.len(),
{
    if lines.len() == 0 {
        Seq::empty()
    } else {
        let rest = block_msgs(lines.drop_first());
        match parse_record(lines[0]) {
            Some(rec) => if is_block_msg(rec.message) {
                seq![rec.message] + rest
            } else {
                rest
            },
            None => rest,
        }
    }
}

/// The block-mined messages of the log content, in file order.
pub open spec fn blocks_of(c: Seq<u8>) -> Seq<Seq<u8>> {
    block_msgs(split_lines(c))
}

/// Start of the last whitespace-delimited token of `s` (`s.len()` when `s`
/// ends in whitespace, `0` when `s` is all one token).
pub open spec fn token_start(s: Seq<u8>) -> int
    decreases s.len(),
{
    if s.len() == 0 {
        0
    } else if is_ws(s.last()) {
        s.len() as int
    } else {
        token_start(s.drop_last())
    }
}

/// The transaction count of a block message: the last whitespace-delimited
/// token before the first ` transactions` marker, as a `u32`.
pub open spec fn size_of_msg(m: Seq<u8>) -> Option<u32> {
    match find_sub(m, tx_marker()) {
        None => None,
        Some(p) => {
            let prefix = m.take(p);
            spec_parse_u32(prefix.skip(token_start(prefix)))
        },
    }
}

/// Index of the `k`-th (0-based) quote at or after `from`.
pub open spec fn quote_index(s: Seq<u8>, k: nat, from: int) -> Option<int>
    decreases k,
{
    match find_byte_from(s, 34, from) {
        None => None,
        Some(q) => if k == 0 {
            Some(q)
        } else {
            quote_index(s, (k - 1) as nat, q + 1)
        },
    }
}

/// The instant embedded in a block message as its 4th quote-delimited
/// token: the bytes between the 3rd and the 4th quote character.
pub open spec fn time_of_msg(m: Seq<u8>) -> Option<i64> {
    match quote_index(m, 2, 0) {
        None => None,
        Some(q2) => match find_byte_from(m, 34, q2 + 1) {
            None => None,
            Some(q3) => parse_instant(m.subrange(q2 + 1, q3)),
        },
    }
}

pub open spec fn sizes_ok(msgs: Seq<Seq<u8>>) -> bool {
    forall|i: int| 0 <= i < msgs.len() ==> size_of_msg(msgs[i]) is Some
}

/// The per-block transaction counts, when every block message parses.
pub open spec fn sizes_seq(msgs: Seq<Seq<u8>>) -> Seq<u32> {
    Seq::new(msgs.len(), |i: int| size_of_msg(msgs[i]).unwrap())
}

pub open spec fn times_ok(msgs: Seq<Seq<u8>>) -> bool {
    forall|i: int| 0 <= i < msgs.len() ==> time_of_msg(msgs[i]) is Some
}

/// The inter-block delays in milliseconds: 0 for the first block, then the
/// difference of consecutive embedded instants.
pub open spec fn times_seq(msgs: Seq<Seq<u8>>) -> Seq<i64> {
    Seq::new(
        msgs.len(),
        |i: int|
            if i == 0 {
                0i64
            } else {
                (time_of_msg(msgs[i]).unwrap() - time_of_msg(msgs[i - 1]).unwrap()) as i64
            },
    )
}

/// A line carries a step-usage report.
pub open spec fn has_steps(l: Seq<u8>) -> bool {
    has_sub(l, steps_marker())
}

/// The step count of a line: the digits between the steps marker and the
/// next ` | ` delimiter, as a `u64`.
pub open spec fn step_of_line(l: Seq<u8>) -> Option<u64> {
    match find_sub(l, steps_marker()) {
        None => None,
        Some(p) => {
            let start = p + steps_marker().len();
            match find_from(l, steps_delim(), start) {
                None => None,
                Some(e) => spec_parse_u64(l.subrange(start, e)),
            }
        },
    }
}

pub open spec fn steps_ok(lines: Seq<Seq<u8>>) -> bool {
    forall|i: int| 0 <= i < lines.len() ==> (has_steps(lines[i]) ==> step_of_line(lines[i]) is Some)
}

/// The step counts of the lines carrying the marker, in order (lines whose
/// count does not parse contribute nothing; `steps_ok` rules them out).
pub open spec fn steps_entries(lines: Seq<Seq<u8>>) -> Seq<u64>
    decreases lines.len(),
{
    if lines.len() == 0 {
        Seq::empty()
    } else {
        let rest = steps_entries(lines.drop_first());
        if has_steps(lines[0]) {
            match step_of_line(lines[0]) {
                Some(v) => seq![v] + rest,
                None => rest,
            }
        } else {
            rest
        }
    }
}

/// The chain reports itself idle: the latest block event was mined with
/// zero transactions.
pub open spec fn chain_idle(c: Seq<u8>) -> bool {
    blocks_of(c).len() > 0 && size_of_msg(blocks_of(c).last()) == Some(0u32)
}

/// One poll of the idle wait: either the chain is idle and the block list is
/// handed back, or the caller should sleep and poll again; the observed
/// block count is reported either way.
pub enum PollStep {
    Idle(Vec<Vec<u8>>),
    Busy(usize),
}

fn block_marker_exec() -> (v: Vec<u8>)
    ensures
        v@ == block_marker(),
{
    let mut v: Vec<u8> = Vec::new();
    v.push(226);
    v.push(155);
    v.push(143);
    v.push(239);
    v.push(184);
    v.push(143);
    v.push(32);
    v.push(66);
    v.push(108);
    v.push(111);
    v.push(99);
    v.push(107);
    proof {
        assert(v@ =~= block_marker());
    }
    v
}

fn tx_marker_exec() -> (v: Vec<u8>)
    ensures
        v@ == tx_marker(),
{
    let mut v: Vec<u8> = Vec::new();
    v.push(32);
    v.push(116);
    v.push(114);
    v.push(97);
    v.push(110);
    v.push(115);
    v.push(97);
    v.push(99);
    v.push(116);
    v.push(105);
    v.push(111);
    v.push(110);
    v.push(115);
    proof {
        assert(v@ =~= tx_marker());
    }
    v
}

fn steps_marker_exec() -> (v: Vec<u8>)
    ensures
        v@ == steps_marker(),
{
    let mut v: Vec<u8> = Vec::new();
    v.push(84);
    v.push(114);
    v.push(97);
    v.push(110);
    v.push(115);
    v.push(97);
    v.push(99);
    v.push(116);
    v.push(105);
    v.push(111);
    v.push(110);
    v.push(32);
    v.push(114);
    v.push(101);
    v.push(115);
    v.push(111);
    v.push(117);
    v.push(114);
    v.push(99);
    v.push(101);
    v.push(32);
    v.push(117);
    v.push(115);
    v.push(97);
    v.push(103);
    v.push(101);
    v.push(58);
    v.push(32);
    v.push(83);
    v.push(116);
    v.push(101);
    v.push(112);
    v.push(115);
    v.push(58);
    v.push(32);
    proof {
        assert(v@ =~= steps_marker());
    }
    v
}

fn steps_delim_exec() -> (v: Vec<u8>)
    ensures
        v@ == steps_delim(),
{
    let mut v: Vec<u8> = Vec::new();
    v.push(32);
    v.push(124);
    v.push(32);
    proof {
        assert(v@ =~= steps_delim());
    }
    v
}

/// All block-mined messages of the log content, in file order. Lines that
/// are not well-formed records are skipped without error.
pub fn blocks(content: &[u8]) -> (r: Vec<Vec<u8>>)
    ensures
        r.deep_view() == blocks_of(content@),
{
    let lines = crate::lines::split_lines_exec(content);
    let ghost lv: Seq<Seq<u8>> = lines.deep_view();
    let marker = block_marker_exec();
    let mut r: Vec<Vec<u8>> = Vec::new();
    let n = lines.len();
    proof {
        assert(lv.skip(0) =~= lv);
    }
    let mut i: usize = 0;
    while i < n
        invariant
            0 <= i <= n,
            n == lines@.len(),
            lv == lines.deep_view(),
            marker@ == block_marker(),
            block_msgs(lv) == r.deep_view() + block_msgs(lv.skip(i as int)),
        decreases n - i,
    {
        proof {
            assert(lv.skip(i as int)[0] == lv[i as int]);
            assert(lv.skip(i as int).drop_first() =~= lv.skip(i + 1));
            assert(lv[i as int] == lines@[i as int]@);
        }
        let line = &lines[i];
        match crate::record::parse_record_exec(line.as_slice()) {
            Some(rec) => {
                if crate::bytes::contains_subseq(rec.message.as_slice(), marker.as_slice()) {
                    let ghost msg_view = rec.message@;
                    let ghost rb = r.deep_view();
                    let ghost msg_dv = rec.message.deep_view();
                    r.push(rec.message);
                    proof {
                        assert(msg_dv =~= msg_view);
                        assert(r.deep_view() =~= rb + seq![msg_view]);
                        assert((rb + seq![msg_view]) + block_msgs(lv.skip(i + 1)) =~= rb + (
                        seq![msg_view] + block_msgs(lv.skip(i + 1))));
                    }
                }
            },
            None => {},
        }
        i = i + 1;
    }
    proof {
        assert(lv.skip(n as int) =~= Seq::<Seq<u8>>::empty());
        assert(r.deep_view() + Seq::<Seq<u8>>::empty() =~= r.deep_view());
    }
    r
}

/// The transaction count of one block message; mirrors `size_of_msg`.
fn size_of_msg_exec(m: &[u8]) -> (r: Option<u32>)
    ensures
        r == size_of_msg(m@),
{
    let marker = tx_marker_exec();
    let p = match crate::bytes::find_subseq(m, marker.as_slice()) {
        Some(p) => p,
        None => {
            return None;
        },
    };
    proof {
        crate::bytes::lemma_find_from_characterization(m@, marker@, 0);
    }
    let ghost prefix = m@.take(p as int);
    let mut j: usize = p;
    proof {
        assert(prefix.take(p as int) =~= prefix);
    }
    while j > 0 && !crate::bytes::is_ws_byte(m[j - 1])
        invariant
            0 <= j <= p <= m@.len(),
            prefix == m@.take(p as int),
            token_start(prefix) == token_start(prefix.take(j as int)),
        decreases j,
    {
        proof {
            assert(prefix.take(j as int).last() == m@[j - 1]);
            assert(prefix.take(j as int).drop_last() =~= prefix.take(j - 1));
        }
        j = j - 1;
    }
    proof {
        if j > 0 {
            assert(prefix.take(j as int).last() == m@[j - 1]);
        }
        assert(token_start(prefix) == j);
        assert(prefix.skip(j as int) =~= m@.subrange(j as int, p as int));
    }
    let token = crate::bytes::copy_range(m, j, p);
    crate::bytes::parse_u32_digits(token.as_slice())
}

/// Index of the `k`-th quote at or after `from`; mirrors `quote_index`.
fn quote_index_exec(m: &[u8], k: u64, from: usize) -> (r: Option<usize>)
    requires
        from <= m@.len(),
        m@.len() <= usize::MAX,
    ensures
        match r {
            Some(q) => quote_index(m@, k as nat, from as int) == Some(q as int) && from <= q
                < m@.len(),
            None => quote_index(m@, k as nat, from as int) is None,
        },
    decreases k,
{
    let q = match find_byte_exec(m, 34, from) {
        Some(q) => q,
        None => {
            return None;
        },
    };
    if k == 0 {
        Some(q)
    } else {
        quote_index_exec(m, k - 1, q + 1)
    }
}

/// The embedded instant of one block message; mirrors `time_of_msg`.
fn time_of_msg_exec(m: &[u8]) -> (r: Option<i64>)
    ensures
        r == time_of_msg(m@),
{
    let ml: usize = m.len();
    proof {
        assert(m@.len() == ml);
    }
    let q2 = match quote_index_exec(m, 2, 0) {
        Some(q) => q,
        None => {
            return None;
        },
    };
    let q3 = match find_byte_exec(m, 34, q2 + 1) {
        Some(q) => q,
        None => {
            return None;
        },
    };
    let ts = crate::bytes::copy_range(m, q2 + 1, q3);
    crate::instant::parse_instant_exec(ts.as_slice())
}

/// First occurrence of byte `b` in `s` at or after `from`.
fn find_byte_exec(s: &[u8], b: u8, from: usize) -> (r: Option<usize>)
    ensures
        match r {
            Some(q) => find_byte_from(s@, b, from as int) == Some(q as int) && from <= q
                < s@.len(),
            None => find_byte_from(s@, b, from as int) is None,
        },
{
    let sl: usize = s.len();
    let mut cur: usize = from;
    if cur > sl {
        return None;
    }
    while cur < sl
        invariant
            from <= cur <= sl,
            s@.len() == sl,
            find_byte_from(s@, b, from as int) == find_byte_from(s@, b, cur as int),
        decreases sl - cur,
    {
        if s[cur] == b {
            return Some(cur);
        }
        cur = cur + 1;
    }
    None
}

/// Per-block transaction counts of the log content, in file order; an
/// unparsable count in a block message is reported with its block index.
pub fn block_sizes(content: &[u8]) -> (r: Result<Vec<u32>, MetricError>)
    ensures
        ({
            let bm = blocks_of(content@);
            match r {
                Ok(v) => sizes_ok(bm) && v@ == sizes_seq(bm),
                Err(e) => match e {
                    MetricError::BlockSize { index } => (index as int) < bm.len() && size_of_msg(
                        bm[index as int],
                    ) is None && (forall|j: int| 0 <= j < index ==> size_of_msg(bm[j]) is Some),
                    _ => false,
                },
            }
        }),
{
    let msgs = blocks(content);
    let ghost bm = blocks_of(content@);
    let n = msgs.len();
    proof {
        assert(bm.len() == n);
    }
    let mut v: Vec<u32> = Vec::new();
    let mut i: usize = 0;
    while i < n
        invariant
            0 <= i <= n,
            n == msgs@.len(),
            msgs.deep_view() == bm,
            bm == blocks_of(content@),
            bm.len() == n,
            v@.len() == i,
            forall|j: int| 0 <= j < i ==> size_of_msg(bm[j]) is Some,
            forall|j: int| 0 <= j < i ==> v@[j] == size_of_msg(bm[j]).unwrap(),
        decreases n - i,
    {
        proof {
            assert(bm[i as int] == msgs@[i as int]@);
        }
        match size_of_msg_exec(msgs[i].as_slice()) {
            Some(s) => {
                v.push(s);
            },
            None => {
                return Err(MetricError::BlockSize { index: i });
            },
        }
        i = i + 1;
    }
    proof {
        assert(v@ =~= sizes_seq(bm));
    }
    Ok(v)
}

/// Every successfully parsed instant is bounded well inside `i64`
/// milliseconds, so consecutive differences cannot overflow.
proof fn lemma_instant_bounds(s: Seq<u8>)
    requires
        parse_instant(s) is Some,
    ensures
        -300000000000000 <= parse_instant(s).unwrap() <= 300000000000000,
{
    let y = digits_val(s.subrange(0, 4)) as int;
    let s4 = s.subrange(0, 4);
    assert(s4.drop_last() =~= s.subrange(0, 3));
    assert(s.subrange(0, 3).drop_last() =~= s.subrange(0, 2));
    assert(s.subrange(0, 2).drop_last() =~= s.subrange(0, 1));
    assert(s.subrange(0, 1).drop_last() =~= s.subrange(0, 0));
    assert(digits_val(s.subrange(0, 0)) == 0);
    assert(s.subrange(0, 1).last() == s[0]);
    assert(digits_val(s.subrange(0, 1)) <= 9);
    assert(digits_val(s.subrange(0, 2)) <= 99);
    assert(digits_val(s.subrange(0, 3)) <= 999);
    assert(y <= 9999);
    assert(1 <= y);
    let py = y - 1;
    assert(py / 4 <= 2499 && py / 4 >= 0);
    assert(py / 100 <= 99 && py / 100 >= 0);
    assert(py / 400 <= 24 && py / 400 >= 0);
    assert(crate::instant::days_before_year(y) <= 3652316);
    assert(crate::instant::days_before_year(y) >= -99);
    let mo = digits_val(s.subrange(5, 7)) as int;
    let d = digits_val(s.subrange(8, 10)) as int;
    assert(crate::instant::days_before_month(y, mo) <= 335);
    assert(crate::instant::days_before_month(y, mo) >= 0);
    let d10 = s.subrange(8, 10);
    assert(d10.drop_last() =~= s.subrange(8, 9));
    assert(s.subrange(8, 9).drop_last() =~= s.subrange(8, 8));
    assert(digits_val(s.subrange(8, 8)) == 0);
    assert(d <= 99);
    let days = crate::instant::days_from_epoch(y, mo, d);
    assert(-719262 <= days <= 2933588);
    let zp = crate::instant::zone_pos(s);
    let fms: int = if s[19] == 46 {
        crate::instant::frac_millis(s.subrange(20, zp))
    } else {
        0
    };
    assert(-600 <= fms <= 1200) by {
        if s[19] == 46 {
            let f = s.subrange(20, zp);
            lemma_digit_run(s, 20);
            if f.len() > 0 {
                assert(f[0] == s[20]);
            }
            if f.len() > 1 {
                assert(f[1] == s[21]);
            }
            if f.len() > 2 {
                assert(f[2] == s[22]);
            }
        }
    }
    let off = crate::instant::zone_offset_min(s, zp).unwrap();
    assert(-1439 <= off <= 1439);
    let h = digits_val(s.subrange(11, 13)) as int;
    let mi = digits_val(s.subrange(14, 16)) as int;
    let sec = digits_val(s.subrange(17, 19)) as int;
    let total = ((days * 86400 + h * 3600 + mi * 60 + sec) * 1000 + fms) - off * 60000;
    assert(-300000000000000 <= total <= 300000000000000);
}

/// Every byte of the digit run starting at `i` is a digit.
proof fn lemma_digit_run(s: Seq<u8>, i: int)
    requires
        0 <= i,
    ensures
        i <= crate::instant::digit_run_end(s, i),
        forall|t: int|
            i <= t < crate::instant::digit_run_end(s, i) ==> crate::bytes::is_digit(s[t]),
    decreases s.len() - i + 1,
{
    if i < s.len() && crate::bytes::is_digit(s[i]) {
        lemma_digit_run(s, i + 1);
    }
}

/// Inter-block delays of the log content in milliseconds, with a leading 0
/// for the first block; a block message without a parseable embedded
/// timestamp is reported with its block index.
pub fn block_times(content: &[u8]) -> (r: Result<Vec<i64>, MetricError>)
    ensures
        ({
            let bm = blocks_of(content@);
            match r {
                Ok(v) => times_ok(bm) && v@ == times_seq(bm),
                Err(e) => match e {
                    MetricError::BlockTime { index } => (index as int) < bm.len() && time_of_msg(
                        bm[index as int],
                    ) is None && (forall|j: int| 0 <= j < index ==> time_of_msg(bm[j]) is Some),
                    _ => false,
                },
            }
        }),
{
    let msgs = blocks(content);
    let ghost bm = blocks_of(content@);
    let n = msgs.len();
    proof {
        assert(bm.len() == n);
    }
    let mut v: Vec<i64> = Vec::new();
    let mut prev: i64 = 0;
    let mut i: usize = 0;
    while i < n
        invariant
            0 <= i <= n,
            n == msgs@.len(),
            msgs.deep_view() == bm,
            bm == blocks_of(content@),
            bm.len() == n,
            v@.len() == i,
            forall|j: int| 0 <= j < i ==> time_of_msg(bm[j]) is Some,
            forall|j: int| 0 <= j < i ==> v@[j] == times_seq(bm)[j],
            i > 0 ==> prev == time_of_msg(bm[i - 1]).unwrap(),
        decreases n - i,
    {
        proof {
            assert(bm[i as int] == msgs@[i as int]@);
        }
        let t = match time_of_msg_exec(msgs[i].as_slice()) {
            Some(t) => t,
            None => {
                return Err(MetricError::BlockTime { index: i });
            },
        };
        proof {
            lemma_time_bounds(bm[i as int]);
            if i > 0 {
                lemma_time_bounds(bm[i - 1]);
            }
        }
        if i == 0 {
            v.push(0);
        } else {
            v.push(t - prev);
        }
        prev = t;
        i = i + 1;
    }
    proof {
        assert(v@ =~= times_seq(bm));
    }
    Ok(v)
}

/// Bound of `lemma_instant_bounds`, lifted to the embedded message instant.
proof fn lemma_time_bounds(m: Seq<u8>)
    requires
        time_of_msg(m) is Some,
    ensures
        -300000000000000 <= time_of_msg(m).unwrap() <= 300000000000000,
{
    let q2 = quote_index(m, 2, 0).unwrap();
    let q3 = find_byte_from(m, 34, q2 + 1).unwrap();
    lemma_instant_bounds(m.subrange(q2 + 1, q3));
}

/// The step count of one line; mirrors `step_of_line`.
fn step_of_line_exec(l: &[u8]) -> (r: Option<u64>)
    ensures
        r == step_of_line(l@),
{
    let ll: usize = l.len();
    proof {
        assert(l@.len() == ll);
    }
    let marker = steps_marker_exec();
    let p = match crate::bytes::find_subseq(l, marker.as_slice()) {
        Some(p) => p,
        None => {
            return None;
        },
    };
    proof {
        crate::bytes::lemma_find_from_characterization(l@, marker@, 0);
    }
    let start = p + marker.len();
    let delim = steps_delim_exec();
    let e = match find_from_exec(l, delim.as_slice(), start) {
        Some(e) => e,
        None => {
            return None;
        },
    };
    let digits = crate::bytes::copy_range(l, start, e);
    crate::bytes::parse_u64_digits(digits.as_slice())
}

/// First occurrence of `n` in `h` at or after `from`.
fn find_from_exec(h: &[u8], n: &[u8], from: usize) -> (r: Option<usize>)
    requires
        from <= h@.len(),
    ensures
        match r {
            Some(e) => find_from(h@, n@, from as int) == Some(e as int) && from <= e && e
                + n@.len() <= h@.len(),
            None => find_from(h@, n@, from as int) is None,
        },
{
    let hl: usize = h.len();
    if n.len() > hl - from {
        return None;
    }
    if n.len() == 0 {
        proof {
            assert(h@.subrange(from as int, from as int) =~= n@);
        }
        return Some(from);
    }
    let end: usize = hl - n.len();
    let mut i: usize = from;
    while i <= end
        invariant
            from <= i <= end + 1,
            1 <= n@.len() <= h@.len(),
            h@.len() == hl,
            end == h@.len() - n@.len(),
            find_from(h@, n@, from as int) == find_from(h@, n@, i as int),
        decreases end + 1 - i,
    {
        if crate::bytes::starts_with_at(h, i, n) {
            return Some(i);
        }
        proof {
            assert(find_from(h@, n@, i as int) == find_from(h@, n@, i + 1));
        }
        i = i + 1;
    }
    None
}

/// Step counts of every line carrying the step marker, in file order,
/// independent of the block metrics; a marked line whose count does not
/// parse is reported with its line number.
pub fn steps(content: &[u8]) -> (r: Result<Vec<u64>, MetricError>)
    ensures
        ({
            let lv = split_lines(content@);
            match r {
                Ok(v) => steps_ok(lv) && v@ == steps_entries(lv),
                Err(e) => match e {
                    MetricError::Steps { line } => (line as int) < lv.len() && has_steps(
                        lv[line as int],
                    ) && step_of_line(lv[line as int]) is None && (forall|j: int|
                        0 <= j < line ==> (has_steps(lv[j]) ==> step_of_line(lv[j]) is Some)),
                    _ => false,
                },
            }
        }),
{
    let lines = crate::lines::split_lines_exec(content);
    let ghost lv: Seq<Seq<u8>> = lines.deep_view();
    let marker = steps_marker_exec();
    let n = lines.len();
    let mut v: Vec<u64> = Vec::new();
    proof {
        assert(lv.skip(0) =~= lv);
        assert(lv.len() == n);
    }
    let mut i: usize = 0;
    while i < n
        invariant
            0 <= i <= n,
            n == lines@.len(),
            lv == lines.deep_view(),
            lv == split_lines(content@),
            lv.len() == n,
            marker@ == steps_marker(),
            steps_entries(lv) == v@ + steps_entries(lv.skip(i as int)),
            forall|j: int| 0 <= j < i ==> (has_steps(lv[j]) ==> step_of_line(lv[j]) is Some),
        decreases n - i,
    {
        proof {
            assert(lv.skip(i as int)[0] == lv[i as int]);
            assert(lv.skip(i as int).drop_first() =~= lv.skip(i + 1));
            assert(lv[i as int] == lines@[i as int]@);
        }
        let line = &lines[i];
        if crate::bytes::contains_subseq(line.as_slice(), marker.as_slice()) {
            match step_of_line_exec(line.as_slice()) {
                Some(s) => {
                    v.push(s);
                    proof {
                        assert((v@.drop_last() + seq![s]) + steps_entries(lv.skip(i + 1)) =~= v@
                            .drop_last() + (seq![s] + steps_entries(lv.skip(i + 1))));
                        assert(v@.drop_last() + seq![s] =~= v@);
                    }
                },
                None => {
                    return Err(MetricError::Steps { line: i });
                },
            }
        }
        i = i + 1;
    }
    proof {
        assert(lv.skip(n as int) =~= Seq::<Seq<u8>>::empty());
        assert(v@ + Seq::<u64>::empty() =~= v@);
    }
    Ok(v)
}

/// One poll of the idle wait over the current content: `Idle` with the block
/// list when the latest block event reports zero transactions, else `Busy`
/// with the observed count — the caller then sleeps and polls again on fresh
/// content.
pub fn blocks_until_empty_step(content: &[u8]) -> (r: PollStep)
    ensures
        match r {
            PollStep::Idle(b) => chain_idle(content@) && b.deep_view() == blocks_of(content@),
            PollStep::Busy(n) => !chain_idle(content@) && n == blocks_of(content@).len(),
        },
{
    let b = blocks(content);
    let n = b.len();
    if n == 0 {
        return PollStep::Busy(0);
    }
    proof {
        assert(b.deep_view()[n - 1] == b@[n - 1]@);
    }
    match size_of_msg_exec(b[n - 1].as_slice()) {
        Some(0) => PollStep::Idle(b),
        _ => PollStep::Busy(n),
    }
}


/// The block metric series are parallel: for any content, the sizes and
/// times series have exactly one entry per block event, and the first
/// inter-block delay is the synthetic leading zero.
pub proof fn lemma_metric_lengths(c: Seq<u8>)
    ensures
        sizes_seq(blocks_of(c)).len() == blocks_of(c).len(),
        times_seq(blocks_of(c)).len() == blocks_of(c).len(),
        blocks_of(c).len() > 0 ==> times_seq(blocks_of(c))[0] == 0i64,
{
}

/// Reading unchanged content twice yields identical block sequences: the
/// derived view is a function of the content alone.
pub proof fn lemma_blocks_deterministic(c: Seq<u8>, r1: Seq<Seq<u8>>, r2: Seq<Seq<u8>>)
    requires
        r1 == blocks_of(c),
        r2 == blocks_of(c),
    ensures
        r1 == r2,
{
}

/// Block extraction distributes over concatenation of line lists.
proof fn lemma_block_msgs_concat(l1: Seq<Seq<u8>>, l2: Seq<Seq<u8>>)
    ensures
        block_msgs(l1 + l2) == block_msgs(l1) + block_msgs(l2),
    decreases l1.len(),
{
    if l1.len() == 0 {
        assert(l1 + l2 =~= l2);
        assert(block_msgs(l1) + block_msgs(l2) =~= block_msgs(l2));
    } else {
        assert((l1 + l2)[0] == l1[0]);
        assert((l1 + l2).drop_first() =~= l1.drop_first() + l2);
        lemma_block_msgs_concat(l1.drop_first(), l2);
        match parse_record(l1[0]) {
            Some(rec) => {
                if is_block_msg(rec.message) {
                    assert((seq![rec.message] + block_msgs(l1.drop_first())) + block_msgs(l2) =~= seq![rec.message] + (block_msgs(l1.drop_first()) + block_msgs(l2)));
                }
            },
            None => {},
        }
    }
}

/// A line list of one empty line holds no block event.
proof fn lemma_block_msgs_empty_line()
    ensures
        block_msgs(seq![Seq::<u8>::empty()]) == Seq::<Seq<u8>>::empty(),
{
    let l = seq![Seq::<u8>::empty()];
    assert(l[0] == Seq::<u8>::empty());
    assert(parse_record(l[0]) is None);
    assert(l.drop_first() =~= Seq::<Seq<u8>>::empty());
    assert(block_msgs(Seq::<Seq<u8>>::empty()) == Seq::<Seq<u8>>::empty());
    assert(block_msgs(l) == block_msgs(l.drop_first()));
}

/// Appending bytes to content that ends at a line boundary (or is empty)
/// extends the block sequence: the new sequence is the old one followed by
/// the blocks of the appended bytes, so prior entries keep their places and
/// order.
pub proof fn lemma_blocks_append(c1: Seq<u8>, c2: Seq<u8>)
    requires
        c1.len() == 0 || c1.last() == crate::lines::NL,
    ensures
        blocks_of(c1 + c2) == blocks_of(c1) + blocks_of(c2),
        blocks_of(c1).is_prefix_of(blocks_of(c1 + c2)),
{
    if c1.len() == 0 {
        assert(c1 + c2 =~= c2);
        assert(c1 =~= Seq::<u8>::empty());
        assert(split_lines(c1) =~= seq![Seq::<u8>::empty()]);
        lemma_block_msgs_empty_line();
        assert(blocks_of(c1) + blocks_of(c2) =~= blocks_of(c2));
    } else {
        crate::lines::lemma_split_lines_concat(c1, c2);
        crate::lines::lemma_split_lines_len(c1);
        let complete = split_lines(c1).drop_last();
        assert(split_lines(c1) =~= complete + seq![Seq::<u8>::empty()]);
        lemma_block_msgs_concat(complete, seq![Seq::<u8>::empty()]);
        lemma_block_msgs_empty_line();
        assert(block_msgs(split_lines(c1)) =~= block_msgs(complete));
        lemma_block_msgs_concat(complete, split_lines(c2));
        assert(blocks_of(c1 + c2) =~= blocks_of(c1) + blocks_of(c2));
    }
    assert((blocks_of(c1) + blocks_of(c2)).take(blocks_of(c1).len() as int) =~= blocks_of(c1));
}

/// Step extraction distributes over concatenation of line lists.
proof fn lemma_steps_entries_concat(l1: Seq<Seq<u8>>, l2: Seq<Seq<u8>>)
    ensures
        steps_entries(l1 + l2) == steps_entries(l1) + steps_entries(l2),
    decreases l1.len(),
{
    if l1.len() == 0 {
        assert(l1 + l2 =~= l2);
        assert(steps_entries(l1) + steps_entries(l2) =~= steps_entries(l2));
    } else {
        assert((l1 + l2)[0] == l1[0]);
        assert((l1 + l2).drop_first() =~= l1.drop_first() + l2);
        lemma_steps_entries_concat(l1.drop_first(), l2);
        if has_steps(l1[0]) {
            match step_of_line(l1[0]) {
                Some(v) => {
                    assert((seq![v] + steps_entries(l1.drop_first())) + steps_entries(l2) =~= seq![v] + (steps_entries(l1.drop_first()) + steps_entries(l2)));
                },
                None => {},
            }
        }
    }
}

/// The step series is invariant under interleaving with non-matching lines:
/// inserting a line that does not carry the step marker anywhere in the file
/// changes neither whether the step series parses nor its values.
pub proof fn lemma_steps_interleaving(pre: Seq<Seq<u8>>, l: Seq<u8>, post: Seq<Seq<u8>>)
    requires
        !has_steps(l),
    ensures
        steps_entries(pre + seq![l] + post) == steps_entries(pre + post),
        steps_ok(pre + seq![l] + post) <==> steps_ok(pre + post),
{
    assert(seq![l].drop_first() =~= Seq::<Seq<u8>>::empty());
    assert(seq![l][0] == l);
    assert(steps_entries(Seq::<Seq<u8>>::empty()) == Seq::<u64>::empty());
    assert(steps_entries(seq![l]) == steps_entries(seq![l].drop_first()));
    assert(steps_entries(seq![l]) =~= Seq::<u64>::empty());
    assert(pre + seq![l] + post =~= pre + (seq![l] + post));
    lemma_steps_entries_concat(pre, seq![l] + post);
    lemma_steps_entries_concat(seq![l], post);
    lemma_steps_entries_concat(pre, post);
    assert(steps_entries(pre + seq![l] + post) =~= steps_entries(pre + post));
    let with_l = pre + seq![l] + post;
    let without = pre + post;
    if steps_ok(without) {
        assert forall|j: int|
            0 <= j < with_l.len() implies (!has_steps(with_l[j]) || step_of_line(with_l[j])
            is Some) by {
            if j < pre.len() {
                assert(with_l[j] == without[j]);
            } else if j == pre.len() {
                assert(with_l[j] == l);
            } else {
                assert(with_l[j] == post[j - pre.len() - 1]);
                assert(without[j - 1] == post[j - pre.len() - 1]);
            }
        }
    }
    if steps_ok(with_l) {
        assert forall|j: int|
            0 <= j < without.len() implies (!has_steps(without[j]) || step_of_line(without[j])
            is Some) by {
            if j < pre.len() {
                assert(with_l[j] == without[j]);
            } else {
                assert(with_l[j + 1] == post[j - pre.len()]);
                assert(without[j] == post[j - pre.len()]);
            }
        }
    }
}

} // verus!
