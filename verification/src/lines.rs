//! Splitting a log file's content into lines.
//!
//! The node's log is an append-only file of newline-terminated lines; a
//! reader may also observe a trailing, still-unterminated fragment after the
//! last newline. Splitting keeps that fragment as a final segment, so the
//! per-line parsers can reject it like any other malformed line.

use vstd::prelude::*;

verus! {

pub const NL: u8 = 10;

/// Index of the first newline in `c`, or `c.len()` if there is none.
pub open spec fn line_len(c: Seq<u8>) -> nat
    decreases c.len(),
{
    if c.len() == 0 {
        0
    } else if c[0] == NL {
        0
    } else {
        (1 + line_len(c.drop_first())) as nat
    }
}

/// The segments of `c` between newlines, in order. The final segment (after
/// the last newline, possibly empty) is included.
pub open spec fn split_lines(c: Seq<u8>) -> Seq<Seq<u8>>
    decreases c.len(),
{
    let k = line_len(c) as int;
    if k >= c.len() {
        seq![c]
    } else {
        seq![c.take(k)] + split_lines(c.skip(k + 1))
    }
}

/// `line_len` is the index of the first newline: everything before it is not
/// a newline, and it is in bounds exactly when `c` contains a newline.
pub proof fn lemma_line_len(c: Seq<u8>)
    ensures
        0 <= line_len(c) <= c.len(),
        forall|j: int| 0 <= j < line_len(c) ==> c[j] != NL,
        line_len(c) < c.len() ==> c[line_len(c) as int] == NL,
    decreases c.len(),
{
    if c.len() != 0 && c[0] != NL {
        lemma_line_len(c.drop_first());
        assert forall|j: int| 0 <= j < line_len(c) implies c[j] != NL by {
            if j > 0 {
                assert(c.drop_first()[j - 1] == c[j]);
            }
        }
        if line_len(c) < c.len() {
            assert(c.drop_first()[line_len(c) - 1] == c[line_len(c) as int]);
        }
    }
}

/// Splitting always yields at least one segment.
pub proof fn lemma_split_lines_len(c: Seq<u8>)
    ensures
        split_lines(c).len() >= 1,
    decreases c.len(),
{
    lemma_line_len(c);
    let k = line_len(c) as int;
    if k < c.len() {
        lemma_split_lines_len(c.skip(k + 1));
    }
}

/// Prepending bytes that contain a newline does not move the first newline.
proof fn lemma_line_len_concat(c1: Seq<u8>, c2: Seq<u8>)
    requires
        line_len(c1) < c1.len(),
    ensures
        line_len(c1 + c2) == line_len(c1),
    decreases c1.len(),
{
    lemma_line_len(c1);
    if c1.len() > 0 {
        if c1[0] == NL {
            assert((c1 + c2)[0] == NL);
        } else {
            assert((c1 + c2)[0] == c1[0]);
            assert((c1 + c2).drop_first() =~= c1.drop_first() + c2);
            lemma_line_len_concat(c1.drop_first(), c2);
        }
    }
}

/// Appending to a file that ends at a line boundary extends the line list:
/// the completed lines of the old content stay in place, and the new bytes
/// split independently after them.
pub proof fn lemma_split_lines_concat(c1: Seq<u8>, c2: Seq<u8>)
    requires
        c1.len() > 0,
        c1.last() == NL,
    ensures
        split_lines(c1 + c2) == split_lines(c1).drop_last() + split_lines(c2),
        split_lines(c1).last() == Seq::<u8>::empty(),
    decreases c1.len(),
{
    lemma_line_len(c1);
    let k = line_len(c1) as int;
    assert(k < c1.len());
    lemma_line_len_concat(c1, c2);
    assert((c1 + c2).take(k) =~= c1.take(k));
    assert((c1 + c2).skip(k + 1) =~= c1.skip(k + 1) + c2);
    lemma_split_lines_len(c1.skip(k + 1));
    if k + 1 == c1.len() {
        assert(c1.skip(k + 1) =~= Seq::<u8>::empty());
        assert(split_lines(c1.skip(k + 1)) =~= seq![Seq::<u8>::empty()]);
        assert(c1.skip(k + 1) + c2 =~= c2);
        assert(split_lines(c1) =~= seq![c1.take(k)] + seq![Seq::<u8>::empty()]);
        assert(split_lines(c1).drop_last() =~= seq![c1.take(k)]);
        assert(split_lines(c1 + c2) =~= seq![c1.take(k)] + split_lines(c2));
    } else {
        assert(c1.skip(k + 1).len() > 0);
        assert(c1.skip(k + 1).last() == c1.last());
        lemma_split_lines_concat(c1.skip(k + 1), c2);
        assert(split_lines(c1).drop_last() =~= seq![c1.take(k)] + split_lines(
            c1.skip(k + 1),
        ).drop_last());
        assert(split_lines(c1 + c2) =~= split_lines(c1).drop_last() + split_lines(c2));
        assert(split_lines(c1).last() == split_lines(c1.skip(k + 1)).last());
    }
}

/// Split `c` at newline bytes; every segment, including the trailing
/// unterminated one, is returned in file order.
pub fn split_lines_exec(c: &[u8]) -> (r: Vec<Vec<u8>>)
    ensures
        r.deep_view() == split_lines(c@),
{
    let cl: usize = c.len();
    let mut r: Vec<Vec<u8>> = Vec::new();
    let mut pos: usize = 0;
    let mut cur: usize = 0;
    proof {
        assert(c@.skip(0) =~= c@);
    }
    while cur < cl
        invariant
            0 <= pos <= cur <= cl,
            c@.len() == cl,
            split_lines(c@) == r.deep_view() + split_lines(c@.skip(pos as int)),
            forall|j: int| pos <= j < cur ==> c@[j] != NL,
        decreases cl - cur,
    {
        if c[cur] == NL {
            proof {
                let rest = c@.skip(pos as int);
                assert forall|j: int| 0 <= j < cur - pos implies rest[j] != NL by {
                    assert(rest[j] == c@[pos + j]);
                }
                assert(rest[cur - pos as int] == c@[cur as int]);
                lemma_line_len(rest);
                if line_len(rest) < cur - pos {
                } else if line_len(rest) > cur - pos {
                    assert(rest[cur - pos as int] != NL);
                }
                assert(line_len(rest) == cur - pos as int);
                assert(rest.take(cur - pos as int) =~= c@.subrange(pos as int, cur as int));
                assert(rest.skip(cur - pos + 1) =~= c@.skip(cur + 1));
            }
            let line = crate::bytes::copy_range(c, pos, cur);
            let ghost r_before: Seq<Seq<u8>> = r.deep_view();
            let ghost line_view: Seq<u8> = line@;
            let ghost line_dv: Seq<u8> = line.deep_view();
            r.push(line);
            proof {
                assert(line_dv =~= line_view);
                assert(r.deep_view() =~= r_before + seq![line_view]);
            }
            pos = cur + 1;
            cur = cur + 1;
        } else {
            cur = cur + 1;
        }
    }
    proof {
        let rest = c@.skip(pos as int);
        assert forall|j: int| 0 <= j < rest.len() implies rest[j] != NL by {
            assert(rest[j] == c@[pos + j]);
        }
        lemma_line_len(rest);
        assert(line_len(rest) == rest.len());
        assert(split_lines(rest) =~= seq![rest]);
        assert(rest =~= c@.subrange(pos as int, cl as int));
    }
    let tail = crate::bytes::copy_range(c, pos, cl);
    let ghost r_before: Seq<Seq<u8>> = r.deep_view();
    let ghost tail_view: Seq<u8> = tail@;
    let ghost tail_dv: Seq<u8> = tail.deep_view();
    r.push(tail);
    proof {
        assert(tail_dv =~= tail_view);
        assert(r.deep_view() =~= r_before + seq![tail_view]);
        assert(r.deep_view() =~= split_lines(c@));
    }
    r
}

} // verus!
