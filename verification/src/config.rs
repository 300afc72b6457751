//! The fixture configuration grammar of the injection generator.
//!
//! A configuration is a comma-separated positional list: account count,
//! block-production mode, executable path, contract manifest path and
//! deployment script path, every field after the first optional. The empty
//! configuration yields all defaults. The account count is incremented by
//! one for the deployer account. A field that does not parse (a non-numeric
//! count, a mode other than `true`/`false`) has no meaning to the generator,
//! so `parse_metadata` requires it away and `try_parse_metadata` reports it
//! as `None`.

use crate::bytes::{all_digits, digits_val, trimmed};
use vstd::prelude::*;

verus! {

broadcast use vstd::slice::group_slice_axioms;

pub const COMMA: u8 = 44;

/// Index of the first comma in `c`, or `c.len()` if there is none.
pub open spec fn field_len(c: Seq<u8>) -> nat
    decreases c.len(),
{
    if c.len() == 0 {
        0
    } else if c[0] == COMMA {
        0
    } else {
        (1 + field_len(c.drop_first())) as nat
    }
}

/// The segments of `c` between commas, in order, empty segments kept.
pub open spec fn split_fields(c: Seq<u8>) -> Seq<Seq<u8>>
    decreases c.len(),
{
    let k = field_len(c) as int;
    if k >= c.len() {
        seq![c]
    } else {
        seq![c.take(k)] + split_fields(c.skip(k + 1))
    }
}

pub open spec fn default_executable() -> Seq<u8> {
    seq![107u8, 97, 116, 97, 110, 97]
}

pub open spec fn default_contract() -> Seq<u8> {
    seq![99u8, 111, 110, 116, 114, 97, 99, 116, 115, 47, 83, 99, 97, 114, 98, 46, 116, 111, 109, 108]
}

pub open spec fn default_script() -> Seq<u8> {
    seq![99u8, 111, 110, 116, 114, 97, 99, 116, 115, 47, 115, 99, 114, 105, 112, 116, 115, 47, 97, 117, 116, 104, 46, 115, 104]
}

/// `true` or `false`, exactly.
pub open spec fn spec_parse_bool(s: Seq<u8>) -> Option<bool> {
    if s == seq![116u8, 114, 117, 101] {
        Some(true)
    } else if s == seq![102u8, 97, 108, 115, 101] {
        Some(false)
    } else {
        None
    }
}

pub open spec fn spec_parse_u16(s: Seq<u8>) -> Option<u16> {
    if s.len() > 0 && all_digits(s) && digits_val(s) <= u16::MAX {
        Some(digits_val(s) as u16)
    } else {
        None
    }
}

/// `s` with every double-quote byte removed.
pub open spec fn without_quotes(s: Seq<u8>) -> Seq<u8>
    decreases s.len(),
{
    if s.len() == 0 {
        Seq::empty()
    } else if s[0] == 34 {
        without_quotes(s.drop_first())
    } else {
        seq![s[0]] + without_quotes(s.drop_first())
    }
}

/// The configuration a metadata string denotes: account count (incremented
/// by one for the deployer), executable (quotes stripped), block-production
/// mode, contract manifest path and deployment script path; `None` when the
/// count or the mode does not parse, or when the incremented count does not
/// fit.
pub open spec fn spec_parse_metadata(m: Seq<u8>) -> Option<(u16, Seq<u8>, bool, Seq<u8>, Seq<u8>)> {
    if m.len() == 0 {
        Some((2u16, default_executable(), false, default_contract(), default_script()))
    } else {
        let args = split_fields(m);
        match spec_parse_u16(args[0]) {
            None => None,
            Some(n) => if n > 65534 {
                None
            } else {
                let wb = if args.len() >= 2 {
                    spec_parse_bool(trimmed(args[1]))
                } else {
                    Some(false)
                };
                match wb {
                    None => None,
                    Some(b) => {
                        let ex = if args.len() >= 3 {
                            without_quotes(trimmed(args[2]))
                        } else {
                            default_executable()
                        };
                        let ct = if args.len() >= 4 {
                            trimmed(args[3])
                        } else {
                            default_contract()
                        };
                        let sc = if args.len() >= 5 {
                            trimmed(args[4])
                        } else {
                            default_script()
                        };
                        Some(((n + 1) as u16, ex, b, ct, sc))
                    },
                }
            },
        }
    }
}

fn default_executable_exec() -> (v: Vec<u8>)
    ensures
        v@ == default_executable(),
{
    let mut v: Vec<u8> = Vec::new();
    v.push(107);
    v.push(97);
    v.push(116);
    v.push(97);
    v.push(110);
    v.push(97);
    proof {
        assert(v@ =~= default_executable());
    }
    v
}

fn default_contract_exec() -> (v: Vec<u8>)
    ensures
        v@ == default_contract(),
{
    let mut v: Vec<u8> = Vec::new();
    v.push(99);
    v.push(111);
    v.push(110);
    v.push(116);
    v.push(114);
    v.push(97);
    v.push(99);
    v.push(116);
    v.push(115);
    v.push(47);
    v.push(83);
    v.push(99);
    v.push(97);
    v.push(114);
    v.push(98);
    v.push(46);
    v.push(116);
    v.push(111);
    v.push(109);
    v.push(108);
    proof {
        assert(v@ =~= default_contract());
    }
    v
}

fn default_script_exec() -> (v: Vec<u8>)
    ensures
        v@ == default_script(),
{
    let mut v: Vec<u8> = Vec::new();
    v.push(99);
    v.push(111);
    v.push(110);
    v.push(116);
    v.push(114);
    v.push(97);
    v.push(99);
    v.push(116);
    v.push(115);
    v.push(47);
    v.push(115);
    v.push(99);
    v.push(114);
    v.push(105);
    v.push(112);
    v.push(116);
    v.push(115);
    v.push(47);
    v.push(97);
    v.push(117);
    v.push(116);
    v.push(104);
    v.push(46);
    v.push(115);
    v.push(104);
    proof {
        assert(v@ =~= default_script());
    }
    v
}

/// Split `c` at comma bytes, keeping empty segments.
pub fn split_fields_exec(c: &[u8]) -> (r: Vec<Vec<u8>>)
    ensures
        r.deep_view() == split_fields(c@),
        r@.len() >= 1,
{
    let cl: usize = c.len();
    let mut r: Vec<Vec<u8>> = Vec::new();
    let mut pos: usize = 0;
    let mut cur: usize = 0;
    proof {
        assert(c@.skip(0) =~= c@);
    }
    while cur < cl
        invariant
            0 <= pos <= cur <= cl,
            c@.len() == cl,
            split_fields(c@) == r.deep_view() + split_fields(c@.skip(pos as int)),
            forall|j: int| pos <= j < cur ==> c@[j] != COMMA,
        decreases cl - cur,
    {
        if c[cur] == COMMA {
            proof {
                let rest = c@.skip(pos as int);
                assert forall|j: int| 0 <= j < cur - pos implies rest[j] != COMMA by {
                    assert(rest[j] == c@[pos + j]);
                }
                assert(rest[cur - pos as int] == c@[cur as int]);
                lemma_field_len(rest);
                if field_len(rest) > cur - pos {
                    assert(rest[cur - pos as int] != COMMA);
                }
                assert(field_len(rest) == cur - pos as int);
                assert(rest.take(cur - pos as int) =~= c@.subrange(pos as int, cur as int));
                assert(rest.skip(cur - pos + 1) =~= c@.skip(cur + 1));
            }
            let field = crate::bytes::copy_range(c, pos, cur);
            let ghost r_before: Seq<Seq<u8>> = r.deep_view();
            let ghost field_view: Seq<u8> = field@;
            let ghost field_dv: Seq<u8> = field.deep_view();
            r.push(field);
            proof {
                assert(field_dv =~= field_view);
                assert(r.deep_view() =~= r_before + seq![field_view]);
            }
            pos = cur + 1;
            cur = cur + 1;
        } else {
            cur = cur + 1;
        }
    }
    proof {
        let rest = c@.skip(pos as int);
        assert forall|j: int| 0 <= j < rest.len() implies rest[j] != COMMA by {
            assert(rest[j] == c@[pos + j]);
        }
        lemma_field_len(rest);
        assert(field_len(rest) == rest.len());
        assert(split_fields(rest) =~= seq![rest]);
        assert(rest =~= c@.subrange(pos as int, cl as int));
    }
    let tail = crate::bytes::copy_range(c, pos, cl);
    let ghost r_before: Seq<Seq<u8>> = r.deep_view();
    let ghost tail_view: Seq<u8> = tail@;
    let ghost tail_dv: Seq<u8> = tail.deep_view();
    r.push(tail);
    proof {
        assert(tail_dv =~= tail_view);
        assert(r.deep_view() =~= r_before + seq![tail_view]);
        assert(r.deep_view() =~= split_fields(c@));
    }
    r
}

/// `field_len` is the index of the first comma: everything before it is not
/// a comma, and it is in bounds exactly when `c` contains a comma.
proof fn lemma_field_len(c: Seq<u8>)
    ensures
        0 <= field_len(c) <= c.len(),
        forall|j: int| 0 <= j < field_len(c) ==> c[j] != COMMA,
        field_len(c) < c.len() ==> c[field_len(c) as int] == COMMA,
    decreases c.len(),
{
    if c.len() != 0 && c[0] != COMMA {
        lemma_field_len(c.drop_first());
        assert forall|j: int| 0 <= j < field_len(c) implies c[j] != COMMA by {
            if j > 0 {
                assert(c.drop_first()[j - 1] == c[j]);
            }
        }
        if field_len(c) < c.len() {
            assert(c.drop_first()[field_len(c) - 1] == c[field_len(c) as int]);
        }
    }
}

/// Exec form of `spec_parse_u16`.
fn parse_u16_digits(s: &[u8]) -> (r: Option<u16>)
    ensures
        r == spec_parse_u16(s@),
{
    match crate::bytes::parse_u32_digits(s) {
        Some(v) => if v <= 65535 {
            Some(v as u16)
        } else {
            None
        },
        None => {
            proof {
                if s@.len() > 0 && all_digits(s@) {
                    assert(digits_val(s@) > u32::MAX);
                }
            }
            None
        },
    }
}

/// Exec form of `spec_parse_bool`.
fn parse_bool_exec(s: &[u8]) -> (r: Option<bool>)
    ensures
        r == spec_parse_bool(s@),
{
    let mut t: Vec<u8> = Vec::new();
    t.push(116);
    t.push(114);
    t.push(117);
    t.push(101);
    proof {
        assert(t@ =~= seq![116u8, 114, 117, 101]);
    }
    let mut f: Vec<u8> = Vec::new();
    f.push(102);
    f.push(97);
    f.push(108);
    f.push(115);
    f.push(101);
    proof {
        assert(f@ =~= seq![102u8, 97, 108, 115, 101]);
    }
    if eq_bytes(s, t.as_slice()) {
        Some(true)
    } else if eq_bytes(s, f.as_slice()) {
        Some(false)
    } else {
        None
    }
}

/// Byte-for-byte equality of two byte strings.
fn eq_bytes(a: &[u8], b: &[u8]) -> (r: bool)
    ensures
        r == (a@ == b@),
{
    if a.len() != b.len() {
        proof {
            assert(a@.len() != b@.len());
        }
        return false;
    }
    if crate::bytes::starts_with_at(a, 0, b) {
        proof {
            assert(a@.subrange(0, a@.len() as int) =~= a@);
        }
        true
    } else {
        proof {
            if a@ == b@ {
                assert(a@.subrange(0, b@.len() as int) =~= b@);
            }
        }
        false
    }
}

/// Exec form of `without_quotes`.
fn without_quotes_exec(s: &[u8]) -> (r: Vec<u8>)
    ensures
        r@ == without_quotes(s@),
{
    let sl: usize = s.len();
    let mut r: Vec<u8> = Vec::new();
    let mut i: usize = 0;
    proof {
        assert(s@.skip(0) =~= s@);
    }
    while i < sl
        invariant
            0 <= i <= sl,
            s@.len() == sl,
            without_quotes(s@) == r@ + without_quotes(s@.skip(i as int)),
        decreases sl - i,
    {
        proof {
            assert(s@.skip(i as int)[0] == s@[i as int]);
            assert(s@.skip(i as int).drop_first() =~= s@.skip(i + 1));
        }
        let b = s[i];
        if b != 34 {
            r.push(b);
            proof {
                assert((r@.drop_last() + seq![b]) + without_quotes(s@.skip(i + 1)) =~= r@
                    .drop_last() + (seq![b] + without_quotes(s@.skip(i + 1))));
                assert(r@.drop_last() + seq![b] =~= r@);
            }
        }
        i = i + 1;
    }
    proof {
        assert(s@.skip(sl as int) =~= Seq::<u8>::empty());
        assert(without_quotes(Seq::<u8>::empty()) == Seq::<u8>::empty());
        assert(r@ + Seq::<u8>::empty() =~= r@);
    }
    r
}

/// Parse a configuration string; `None` exactly when `spec_parse_metadata`
/// rejects it.
pub fn try_parse_metadata(metadata: &[u8]) -> (r: Option<(u16, Vec<u8>, bool, Vec<u8>, Vec<u8>)>)
    ensures
        match r {
            Some(t) => spec_parse_metadata(metadata@) == Some(
                (t.0, t.1@, t.2, t.3@, t.4@),
            ),
            None => spec_parse_metadata(metadata@) is None,
        },
{
    if metadata.len() == 0 {
        return Some(
            (2, default_executable_exec(), false, default_contract_exec(), default_script_exec()),
        );
    }
    let args = split_fields_exec(metadata);
    let ghost av = args.deep_view();
    proof {
        assert(av[0] == args@[0]@);
    }
    let n = match parse_u16_digits(args[0].as_slice()) {
        Some(n) => n,
        None => {
            return None;
        },
    };
    if n > 65534 {
        return None;
    }
    let b: bool;
    if args.len() >= 2 {
        proof {
            assert(av[1] == args@[1]@);
        }
        let t1 = crate::bytes::trim(args[1].as_slice());
        b = match parse_bool_exec(t1.as_slice()) {
            Some(b) => b,
            None => {
                return None;
            },
        };
    } else {
        b = false;
    }
    let ex: Vec<u8>;
    if args.len() >= 3 {
        proof {
            assert(av[2] == args@[2]@);
        }
        let t2 = crate::bytes::trim(args[2].as_slice());
        ex = without_quotes_exec(t2.as_slice());
    } else {
        ex = default_executable_exec();
    }
    let ct: Vec<u8>;
    if args.len() >= 4 {
        proof {
            assert(av[3] == args@[3]@);
        }
        ct = crate::bytes::trim(args[3].as_slice());
    } else {
        ct = default_contract_exec();
    }
    let sc: Vec<u8>;
    if args.len() >= 5 {
        proof {
            assert(av[4] == args@[4]@);
        }
        sc = crate::bytes::trim(args[4].as_slice());
    } else {
        sc = default_script_exec();
    }
    Some((n + 1, ex, b, ct, sc))
}

/// Parse a configuration string that is known to be well-formed: the
/// account count (incremented by one for the deployer account), the
/// executable path, the block-production mode, the contract manifest path
/// and the deployment script path.
pub fn parse_metadata(metadata: &[u8]) -> (r: (u16, Vec<u8>, bool, Vec<u8>, Vec<u8>))
    requires
        spec_parse_metadata(metadata@) is Some,
    ensures
        spec_parse_metadata(metadata@) == Some((r.0, r.1@, r.2, r.3@, r.4@)),
{
    match try_parse_metadata(metadata) {
        Some(t) => t,
        None => {
            proof {
                assert(false);
            }
            (0, Vec::new(), false, Vec::new(), Vec::new())
        },
    }
}

/// Split a `runner` invocation's argument list into the leading function
/// name and the remaining configuration string: the name is everything
/// before the first comma, the configuration everything after it (empty
/// when there is no comma).
pub fn split_runner_metadata(metadata: &[u8]) -> (r: (Vec<u8>, Vec<u8>))
    ensures
        r.0@ == metadata@.take(field_len(metadata@) as int),
        r.1@ == if field_len(metadata@) < metadata@.len() {
            metadata@.skip(field_len(metadata@) as int + 1)
        } else {
            Seq::<u8>::empty()
        },
{
    let ml: usize = metadata.len();
    let mut i: usize = 0;
    proof {
        assert(metadata@.skip(0) =~= metadata@);
        lemma_field_len(metadata@);
    }
    while i < ml && metadata[i] != COMMA
        invariant
            0 <= i <= ml,
            metadata@.len() == ml,
            forall|j: int| 0 <= j < i ==> metadata@[j] != COMMA,
        decreases ml - i,
    {
        i = i + 1;
    }
    proof {
        lemma_field_len(metadata@);
        if i < ml {
            if field_len(metadata@) > i {
                assert(metadata@[i as int] != COMMA);
            }
            assert(field_len(metadata@) == i);
        } else {
            assert(field_len(metadata@) == ml);
        }
        assert(metadata@.subrange(0, i as int) =~= metadata@.take(i as int));
    }
    let name = crate::bytes::copy_range(metadata, 0, i);
    let rest: Vec<u8> = if i < ml {
        crate::bytes::copy_range(metadata, i + 1, ml)
    } else {
        Vec::new()
    };
    proof {
        if i < ml {
            assert(metadata@.subrange(i + 1, ml as int) =~= metadata@.skip(i + 1));
        }
    }
    (name, rest)
}


/// The decimal text of `true` / `false`.
pub open spec fn bool_text(b: bool) -> Seq<u8> {
    if b {
        seq![116u8, 114, 117, 101]
    } else {
        seq![102u8, 97, 108, 115, 101]
    }
}

pub open spec fn lit_new_head() -> Seq<u8> {
    seq![108u8, 101, 116, 32, 114, 117, 110, 110, 101, 114, 32, 61, 32, 107, 97, 116, 97, 110, 97, 95, 114, 117, 110, 110, 101, 114, 58, 58, 75, 97, 116, 97, 110, 97, 82, 117, 110, 110, 101, 114, 58, 58, 110, 101, 119, 95, 119, 105, 116, 104, 95, 97, 114, 103, 115, 40, 34]
}

pub open spec fn lit_mid1() -> Seq<u8> {
    seq![34u8, 44, 32, 34]
}

pub open spec fn lit_mid2() -> Seq<u8> {
    seq![34u8, 44, 32]
}

pub open spec fn lit_mid3() -> Seq<u8> {
    seq![44u8, 32]
}

pub open spec fn lit_new_tail() -> Seq<u8> {
    seq![41u8, 46, 101, 120, 112, 101, 99, 116, 40, 34, 102, 97, 105, 108, 101, 100, 32, 116, 111, 32, 115, 116, 97, 114, 116, 32, 107, 97, 116, 97, 110, 97, 34, 41, 59, 10]
}

pub open spec fn lit_deploy_head() -> Seq<u8> {
    seq![108u8, 101, 116, 32, 99, 111, 110, 116, 114, 97, 99, 116, 95, 97, 100, 100, 114, 101, 115, 115, 32, 61, 32, 114, 117, 110, 110, 101, 114, 46, 100, 101, 112, 108, 111, 121, 40, 34]
}

pub open spec fn lit_deploy_tail() -> Seq<u8> {
    seq![34u8, 41, 46, 97, 119, 97, 105, 116, 46, 101, 120, 112, 101, 99, 116, 40, 34, 70, 97, 105, 108, 101, 100, 32, 116, 111, 32, 100, 101, 112, 108, 111, 121, 34, 41, 59, 10]
}

/// The setup statements the injection generator prepends to a test body:
/// a runner construction binding `runner`, and, when a contract manifest
/// path is given, a deployment binding `contract_address`. Paths and the
/// test name are emitted verbatim between double quotes.
pub open spec fn setup_text(
    name: Seq<u8>,
    n_accounts: u16,
    executable: Seq<u8>,
    with_blocks: bool,
    contract: Seq<u8>,
    script: Seq<u8>,
) -> Seq<u8> {
    let head = lit_new_head() + executable + lit_mid1() + name + lit_mid2() + crate::bytes::digits_of(
        n_accounts as nat,
    ) + lit_mid3() + bool_text(with_blocks) + lit_new_tail();
    if contract.len() > 0 {
        head + lit_deploy_head() + contract + lit_mid1() + script + lit_deploy_tail()
    } else {
        head
    }
}

/// Append `s` to `out`.
fn append_bytes(out: &mut Vec<u8>, s: &[u8])
    ensures
        final(out)@ == old(out)@ + s@,
{
    let n = s.len();
    let mut i: usize = 0;
    proof {
        assert(out@ =~= old(out)@ + s@.take(0));
    }
    while i < n
        invariant
            0 <= i <= n,
            n == s@.len(),
            out@ == old(out)@ + s@.take(i as int),
        decreases n - i,
    {
        out.push(s[i]);
        proof {
            assert(old(out)@ + s@.take(i + 1) =~= (old(out)@ + s@.take(i as int)).push(
                s@[i as int],
            ));
        }
        i = i + 1;
    }
    proof {
        assert(s@.take(n as int) =~= s@);
    }
}

fn lit_new_head_exec() -> (v: Vec<u8>)
    ensures
        v@ == lit_new_head(),
{
    let mut v: Vec<u8> = Vec::new();
    v.push(108);
    v.push(101);
    v.push(116);
    v.push(32);
    v.push(114);
    v.push(117);
    v.push(110);
    v.push(110);
    v.push(101);
    v.push(114);
    v.push(32);
    v.push(61);
    v.push(32);
    v.push(107);
    v.push(97);
    v.push(116);
    v.push(97);
    v.push(110);
    v.push(97);
    v.push(95);
    v.push(114);
    v.push(117);
    v.push(110);
    v.push(110);
    v.push(101);
    v.push(114);
    v.push(58);
    v.push(58);
    v.push(75);
    v.push(97);
    v.push(116);
    v.push(97);
    v.push(110);
    v.push(97);
    v.push(82);
    v.push(117);
    v.push(110);
    v.push(110);
    v.push(101);
    v.push(114);
    v.push(58);
    v.push(58);
    v.push(110);
    v.push(101);
    v.push(119);
    v.push(95);
    v.push(119);
    v.push(105);
    v.push(116);
    v.push(104);
    v.push(95);
    v.push(97);
    v.push(114);
    v.push(103);
    v.push(115);
    v.push(40);
    v.push(34);
    proof {
        assert(v@ =~= lit_new_head());
    }
    v
}

fn lit_mid1_exec() -> (v: Vec<u8>)
    ensures
        v@ == lit_mid1(),
{
    let mut v: Vec<u8> = Vec::new();
    v.push(34);
    v.push(44);
    v.push(32);
    v.push(34);
    proof {
        assert(v@ =~= lit_mid1());
    }
    v
}

fn lit_mid2_exec() -> (v: Vec<u8>)
    ensures
        v@ == lit_mid2(),
{
    let mut v: Vec<u8> = Vec::new();
    v.push(34);
    v.push(44);
    v.push(32);
    proof {
        assert(v@ =~= lit_mid2());
    }
    v
}

fn lit_mid3_exec() -> (v: Vec<u8>)
    ensures
        v@ == lit_mid3(),
{
    let mut v: Vec<u8> = Vec::new();
    v.push(44);
    v.push(32);
    proof {
        assert(v@ =~= lit_mid3());
    }
    v
}

fn lit_new_tail_exec() -> (v: Vec<u8>)
    ensures
        v@ == lit_new_tail(),
{
    let mut v: Vec<u8> = Vec::new();
    v.push(41);
    v.push(46);
    v.push(101);
    v.push(120);
    v.push(112);
    v.push(101);
    v.push(99);
    v.push(116);
    v.push(40);
    v.push(34);
    v.push(102);
    v.push(97);
    v.push(105);
    v.push(108);
    v.push(101);
    v.push(100);
    v.push(32);
    v.push(116);
    v.push(111);
    v.push(32);
    v.push(115);
    v.push(116);
    v.push(97);
    v.push(114);
    v.push(116);
    v.push(32);
    v.push(107);
    v.push(97);
    v.push(116);
    v.push(97);
    v.push(110);
    v.push(97);
    v.push(34);
    v.push(41);
    v.push(59);
    v.push(10);
    proof {
        assert(v@ =~= lit_new_tail());
    }
    v
}

fn lit_deploy_head_exec() -> (v: Vec<u8>)
    ensures
        v@ == lit_deploy_head(),
{
    let mut v: Vec<u8> = Vec::new();
    v.push(108);
    v.push(101);
    v.push(116);
    v.push(32);
    v.push(99);
    v.push(111);
    v.push(110);
    v.push(116);
    v.push(114);
    v.push(97);
    v.push(99);
    v.push(116);
    v.push(95);
    v.push(97);
    v.push(100);
    v.push(100);
    v.push(114);
    v.push(101);
    v.push(115);
    v.push(115);
    v.push(32);
    v.push(61);
    v.push(32);
    v.push(114);
    v.push(117);
    v.push(110);
    v.push(110);
    v.push(101);
    v.push(114);
    v.push(46);
    v.push(100);
    v.push(101);
    v.push(112);
    v.push(108);
    v.push(111);
    v.push(121);
    v.push(40);
    v.push(34);
    proof {
        assert(v@ =~= lit_deploy_head());
    }
    v
}

fn lit_deploy_tail_exec() -> (v: Vec<u8>)
    ensures
        v@ == lit_deploy_tail(),
{
    let mut v: Vec<u8> = Vec::new();
    v.push(34);
    v.push(41);
    v.push(46);
    v.push(97);
    v.push(119);
    v.push(97);
    v.push(105);
    v.push(116);
    v.push(46);
    v.push(101);
    v.push(120);
    v.push(112);
    v.push(101);
    v.push(99);
    v.push(116);
    v.push(40);
    v.push(34);
    v.push(70);
    v.push(97);
    v.push(105);
    v.push(108);
    v.push(101);
    v.push(100);
    v.push(32);
    v.push(116);
    v.push(111);
    v.push(32);
    v.push(100);
    v.push(101);
    v.push(112);
    v.push(108);
    v.push(111);
    v.push(121);
    v.push(34);
    v.push(41);
    v.push(59);
    v.push(10);
    proof {
        assert(v@ =~= lit_deploy_tail());
    }
    v
}

fn bool_text_exec(b: bool) -> (v: Vec<u8>)
    ensures
        v@ == bool_text(b),
{
    let mut v: Vec<u8> = Vec::new();
    if b {
        v.push(116);
        v.push(114);
        v.push(117);
        v.push(101);
    } else {
        v.push(102);
        v.push(97);
        v.push(108);
        v.push(115);
        v.push(101);
    }
    proof {
        assert(v@ =~= bool_text(b));
    }
    v
}

/// Render the setup statements for one test from its name and its
/// configuration string; `None` exactly when the configuration does not
/// parse.
pub fn render_setup(function_name: &[u8], metadata: &[u8]) -> (r: Option<Vec<u8>>)
    ensures
        match r {
            Some(v) => match spec_parse_metadata(metadata@) {
                Some(c) => v@ == setup_text(function_name@, c.0, c.1, c.2, c.3, c.4),
                None => false,
            },
            None => spec_parse_metadata(metadata@) is None,
        },
{
    let (n_accounts, executable, with_blocks, contract, script) = match try_parse_metadata(
        metadata,
    ) {
        Some(t) => t,
        None => {
            return None;
        },
    };
    let mut out: Vec<u8> = Vec::new();
    append_bytes(&mut out, lit_new_head_exec().as_slice());
    append_bytes(&mut out, executable.as_slice());
    append_bytes(&mut out, lit_mid1_exec().as_slice());
    append_bytes(&mut out, function_name);
    append_bytes(&mut out, lit_mid2_exec().as_slice());
    append_bytes(&mut out, crate::bytes::format_u64(n_accounts as u64).as_slice());
    append_bytes(&mut out, lit_mid3_exec().as_slice());
    append_bytes(&mut out, bool_text_exec(with_blocks).as_slice());
    append_bytes(&mut out, lit_new_tail_exec().as_slice());
    if contract.len() > 0 {
        append_bytes(&mut out, lit_deploy_head_exec().as_slice());
        append_bytes(&mut out, contract.as_slice());
        append_bytes(&mut out, lit_mid1_exec().as_slice());
        append_bytes(&mut out, script.as_slice());
        append_bytes(&mut out, lit_deploy_tail_exec().as_slice());
    }
    proof {
        assert(out@ =~= setup_text(
            function_name@,
            n_accounts,
            executable@,
            with_blocks,
            contract@,
            script@,
        ));
    }
    Some(out)
}


/// The attribute the generator places on a test: `#[test]` for a plain
/// function, `#[tokio::test]` for an async one.
pub open spec fn attribute_text(is_async: bool) -> Seq<u8> {
    if is_async {
        seq![35u8, 91, 116, 111, 107, 105, 111, 58, 58, 116, 101, 115, 116, 93]
    } else {
        seq![35u8, 91, 116, 101, 115, 116, 93]
    }
}

/// Render the test attribute the generator chooses for a (possibly async)
/// test function.
pub fn test_attribute(is_async: bool) -> (v: Vec<u8>)
    ensures
        v@ == attribute_text(is_async),
{
    let mut v: Vec<u8> = Vec::new();
    if is_async {
        v.push(35);
        v.push(91);
        v.push(116);
        v.push(111);
        v.push(107);
        v.push(105);
        v.push(111);
        v.push(58);
        v.push(58);
        v.push(116);
        v.push(101);
        v.push(115);
        v.push(116);
        v.push(93);
    } else {
        v.push(35);
        v.push(91);
        v.push(116);
        v.push(101);
        v.push(115);
        v.push(116);
        v.push(93);
    }
    proof {
        assert(v@ =~= attribute_text(is_async));
    }
    v
}

} // verus!
