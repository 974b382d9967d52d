//! The Bencode encoder: the canonical byte form of a value, with dictionary
//! keys emitted in byte-lexicographic order whatever order they are stored
//! in. The executable encoder is proved to produce exactly
//! `spec_encode(spec_canon(v))`.

use vstd::prelude::*;

use crate::value::SpecValue;
use crate::value::Value;
use crate::value::lex_lt;
use crate::value::lemma_deep_items;
use crate::value::lemma_deep_pairs;

verus! {

broadcast use vstd::std_specs::vec::group_vec_axioms;

/// The decimal digits of `n`, most significant first; `0` is `"0"`.
pub open spec fn dec_repr(n: int) -> Seq<u8>
    decreases n,
{
    if n < 10 {
        seq![(48 + n) as u8]
    } else {
        dec_repr(n / 10).push((48 + n % 10) as u8)
    }
}

/// The decimal form of a possibly negative integer, with a `-` sign.
pub open spec fn int_repr(n: int) -> Seq<u8> {
    if n < 0 {
        seq![45u8] + dec_repr(-n)
    } else {
        dec_repr(n)
    }
}

/// The length-prefixed form `<len>:<bytes>` of a byte string.
pub open spec fn enc_len_prefixed(b: Seq<u8>) -> Seq<u8> {
    dec_repr(b.len() as int) + seq![58u8] + b
}

/// The canonical encoding of a value whose dictionaries are already sorted.
pub open spec fn spec_encode(v: SpecValue) -> Seq<u8>
    decreases v, 0int, 0int,
{
    match v {
        SpecValue::Bytes(b) => enc_len_prefixed(b),
        SpecValue::Integer(n) => seq![105u8] + int_repr(n) + seq![101u8],
        SpecValue::List(es) => seq![108u8] + enc_items(es, 0) + seq![101u8],
        SpecValue::Dict(ps) => seq![100u8] + enc_pairs(ps, 0) + seq![101u8],
    }
}

/// The concatenated encodings of the elements `es[k..]`.
pub open spec fn enc_items(es: Seq<SpecValue>, k: int) -> Seq<u8>
    decreases es, 1int, es.len() - k,
{
    if k < 0 || k >= es.len() {
        Seq::empty()
    } else {
        spec_encode(es[k]) + enc_items(es, k + 1)
    }
}

/// The concatenated encodings of the pairs `ps[k..]`, each as key then value.
pub open spec fn enc_pairs(ps: Seq<(Seq<u8>, SpecValue)>, k: int) -> Seq<u8>
    decreases ps, 1int, ps.len() - k,
{
    if k < 0 || k >= ps.len() {
        Seq::empty()
    } else {
        enc_len_prefixed(ps[k].0) + spec_encode(ps[k].1) + enc_pairs(ps, k + 1)
    }
}

/// Insert a pair into a key-sorted pair sequence, before the first strictly
/// greater key.
pub open spec fn spec_insert_pair(p: (Seq<u8>, SpecValue), s: Seq<(Seq<u8>, SpecValue)>) -> Seq<
    (Seq<u8>, SpecValue),
>
    decreases s.len(),
{
    if s.len() == 0 {
        seq![p]
    } else if lex_lt(p.0, s[0].0) {
        seq![p] + s
    } else {
        seq![s[0]] + spec_insert_pair(p, s.drop_first())
    }
}

/// Insertion sort of a pair sequence by key.
pub open spec fn spec_sort_pairs(ps: Seq<(Seq<u8>, SpecValue)>) -> Seq<(Seq<u8>, SpecValue)>
    decreases ps.len(),
{
    if ps.len() == 0 {
        Seq::empty()
    } else {
        spec_insert_pair(ps.last(), spec_sort_pairs(ps.drop_last()))
    }
}

/// The canonical form of a value: every dictionary, at every depth, sorted
/// by key.
pub open spec fn spec_canon(v: SpecValue) -> SpecValue
    decreases v, 0int, 0int,
{
    match v {
        SpecValue::Bytes(b) => SpecValue::Bytes(b),
        SpecValue::Integer(n) => SpecValue::Integer(n),
        SpecValue::List(es) => SpecValue::List(canon_items(es, 0)),
        SpecValue::Dict(ps) => SpecValue::Dict(spec_sort_pairs(canon_pairs(ps, 0))),
    }
}

/// Canonical forms of the elements `es[k..]`.
pub open spec fn canon_items(es: Seq<SpecValue>, k: int) -> Seq<SpecValue>
    decreases es, 1int, es.len() - k,
{
    if k < 0 || k >= es.len() {
        Seq::empty()
    } else {
        seq![spec_canon(es[k])] + canon_items(es, k + 1)
    }
}

/// Canonical forms of the values of `ps[k..]`; keys are untouched.
pub open spec fn canon_pairs(ps: Seq<(Seq<u8>, SpecValue)>, k: int) -> Seq<(Seq<u8>, SpecValue)>
    decreases ps, 1int, ps.len() - k,
{
    if k < 0 || k >= ps.len() {
        Seq::empty()
    } else {
        seq![(ps[k].0, spec_canon(ps[k].1))] + canon_pairs(ps, k + 1)
    }
}

/// The length and the elements of `canon_items(es, k)`.
pub proof fn lemma_canon_items(es: Seq<SpecValue>, k: int)
    requires
        0 <= k <= es.len(),
    ensures
        canon_items(es, k).len() == es.len() - k,
        forall|i: int|
            k <= i < es.len() ==> canon_items(es, k)[i - k] == spec_canon(#[trigger] es[i]),
    decreases es.len() - k,
{
    if k < es.len() {
        lemma_canon_items(es, k + 1);
    }
}

/// The length and the elements of `canon_pairs(ps, k)`.
pub proof fn lemma_canon_pairs(ps: Seq<(Seq<u8>, SpecValue)>, k: int)
    requires
        0 <= k <= ps.len(),
    ensures
        canon_pairs(ps, k).len() == ps.len() - k,
        forall|i: int|
            k <= i < ps.len() ==> canon_pairs(ps, k)[i - k] == ((#[trigger] ps[i]).0,
            spec_canon(ps[i].1)),
    decreases ps.len() - k,
{
    if k < ps.len() {
        lemma_canon_pairs(ps, k + 1);
    }
}

/// Where the comparisons of an insertion have settled the position, the
/// inserted sequence is the original with the pair placed at that position.
pub proof fn lemma_insert_at(p: (Seq<u8>, SpecValue), s: Seq<(Seq<u8>, SpecValue)>, pos: int)
    requires
        0 <= pos <= s.len(),
        forall|m: int| 0 <= m < pos ==> !lex_lt(p.0, (#[trigger] s[m]).0),
        pos < s.len() ==> lex_lt(p.0, s[pos].0),
    ensures
        spec_insert_pair(p, s) == s.insert(pos, p),
    decreases s.len(),
{
    if s.len() == 0 {
        assert(spec_insert_pair(p, s) =~= s.insert(0, p));
    } else if lex_lt(p.0, s[0].0) {
        assert(pos == 0);
        assert(spec_insert_pair(p, s) =~= s.insert(0, p));
    } else {
        assert(pos >= 1);
        let t = s.drop_first();
        assert(forall|m: int| 0 <= m < pos - 1 ==> (#[trigger] t[m]) == s[m + 1]);
        lemma_insert_at(p, t, pos - 1);
        assert(seq![s[0]] + t.insert(pos - 1, p) =~= s.insert(pos, p));
    }
}

/// The pairs of `cps` picked out in the order given by `idx`.
pub open spec fn sel_pairs(idx: Seq<usize>, cps: Seq<(Seq<u8>, SpecValue)>) -> Seq<
    (Seq<u8>, SpecValue),
> {
    Seq::new(idx.len(), |m: int| cps[idx[m] as int])
}

/// Whether `a` comes strictly before `b` in byte-lexicographic order.
pub fn lex_lt_exec(a: &Vec<u8>, b: &Vec<u8>) -> (r: bool)
    ensures
        r == lex_lt(a@, b@),
{
    let mut t: usize = 0;
    proof {
        assert(a@.skip(0) =~= a@);
        assert(b@.skip(0) =~= b@);
    }
    loop
        invariant
            0 <= t <= a@.len(),
            t <= b@.len(),
            lex_lt(a@, b@) == lex_lt(a@.skip(t as int), b@.skip(t as int)),
        decreases a@.len() - t,
    {
        if t >= b.len() {
            return false;
        }
        if t >= a.len() {
            return true;
        }
        let x = a[t];
        let y = b[t];
        if x < y {
            return true;
        }
        if x > y {
            return false;
        }
        proof {
            assert(a@.skip(t as int).drop_first() =~= a@.skip(t + 1));
            assert(b@.skip(t as int).drop_first() =~= b@.skip(t + 1));
        }
        t += 1;
    }
}

/// Append the decimal digits of `n`.
fn push_decimal(n: u64, out: &mut Vec<u8>)
    ensures
        final(out)@ == old(out)@ + dec_repr(n as int),
    decreases n,
{
    if n < 10 {
        out.push(48 + n as u8);
        proof {
            assert(out@ =~= old(out)@ + dec_repr(n as int));
        }
    } else {
        push_decimal(n / 10, out);
        out.push(48 + (n % 10) as u8);
        proof {
            assert(out@ =~= old(out)@ + dec_repr(n as int));
        }
    }
}

/// Append the decimal form of a signed integer.
pub(crate) fn push_int(n: i64, out: &mut Vec<u8>)
    ensures
        final(out)@ == old(out)@ + int_repr(n as int),
{
    if n < 0 {
        out.push(45);
        let mag: u64 = if n == i64::MIN {
            9223372036854775808u64
        } else {
            (-n) as u64
        };
        assert(mag as int == -(n as int));
        push_decimal(mag, out);
        proof {
            assert(out@ =~= old(out)@ + int_repr(n as int));
        }
    } else {
        push_decimal(n as u64, out);
    }
}

/// Append the length-prefixed form of a byte string.
fn push_len_prefixed(b: &Vec<u8>, out: &mut Vec<u8>)
    ensures
        final(out)@ == old(out)@ + enc_len_prefixed(b@),
{
    push_decimal(b.len() as u64, out);
    out.push(58);
    let ghost mid = out@;
    let mut t: usize = 0;
    while t < b.len()
        invariant
            0 <= t <= b@.len(),
            out@ == mid + b@.subrange(0, t as int),
        decreases b@.len() - t,
    {
        out.push(b[t]);
        proof {
            assert(out@ =~= mid + b@.subrange(0, t + 1));
        }
        t += 1;
    }
    proof {
        assert(b@.subrange(0, b@.len() as int) =~= b@);
        assert(out@ =~= old(out)@ + enc_len_prefixed(b@));
    }
}

/// The position before the first index in `idx` whose pair in `ps` has a
/// key strictly greater than that of `ps[k]`.
fn find_insert_pos(ps: &Vec<(Vec<u8>, Value)>, idx: &Vec<usize>, k: usize) -> (pos: usize)
    requires
        k < ps@.len(),
        forall|m: int| 0 <= m < idx@.len() ==> (#[trigger] idx@[m]) < ps@.len(),
    ensures
        0 <= pos <= idx@.len(),
        forall|m: int|
            0 <= m < pos ==> !lex_lt(ps@[k as int].0@, ps@[(#[trigger] idx@[m]) as int].0@),
        pos < idx@.len() ==> lex_lt(ps@[k as int].0@, ps@[idx@[pos as int] as int].0@),
{
    let mut pos: usize = 0;
    while pos < idx.len()
        invariant
            0 <= pos <= idx@.len(),
            k < ps@.len(),
            forall|m: int| 0 <= m < idx@.len() ==> (#[trigger] idx@[m]) < ps@.len(),
            forall|m: int|
                0 <= m < pos ==> !lex_lt(ps@[k as int].0@, ps@[(#[trigger] idx@[m]) as int].0@),
        decreases idx@.len() - pos,
    {
        let j = idx[pos];
        if lex_lt_exec(&ps[k].0, &ps[j].0) {
            return pos;
        }
        pos += 1;
    }
    pos
}

/// Append the canonical encoding of `v`.
#[verifier::loop_isolation(false)]
fn encode_into(v: &Value, out: &mut Vec<u8>)
    ensures
        final(out)@ == old(out)@ + spec_encode(spec_canon(v.deep())),
    decreases v,
{
    match v {
        Value::Bytes(b) => {
            push_len_prefixed(b, out);
        },
        Value::Integer(n) => {
            out.push(105);
            push_int(*n, out);
            out.push(101);
            proof {
                assert(out@ =~= old(out)@ + spec_encode(spec_canon(v.deep())));
            }
        },
        Value::List(es) => {
            let ghost ds = Value::deep_items(es@, 0);
            let ghost cs = canon_items(ds, 0);
            proof {
                lemma_deep_items(es@, 0);
                lemma_canon_items(ds, 0);
            }
            out.push(108);
            let ghost base = old(out)@;
            proof {
                assert(out@ + enc_items(cs, 0) =~= base + seq![108u8] + enc_items(cs, 0));
            }
            let mut k: usize = 0;
            while k < es.len()
                invariant
                    0 <= k <= es@.len(),
                    ds == Value::deep_items(es@, 0),
                    cs == canon_items(ds, 0),
                    ds.len() == es@.len(),
                    cs.len() == es@.len(),
                    forall|i: int| 0 <= i < es@.len() ==> ds[i] == (#[trigger] es@[i]).deep(),
                    forall|i: int| 0 <= i < es@.len() ==> #[trigger] cs[i] == spec_canon(ds[i]),
                    out@ + enc_items(cs, k as int) == base + seq![108u8] + enc_items(cs, 0),
                decreases es@.len() - k,
            {
                let ghost before = out@;
                encode_into(&es[k], out);
                proof {
                    assert(out@ + enc_items(cs, k + 1) =~= before + enc_items(cs, k as int));
                }
                k += 1;
            }
            proof {
                assert(enc_items(cs, es@.len() as int) =~= Seq::<u8>::empty());
                assert(out@ =~= out@ + enc_items(cs, es@.len() as int));
            }
            out.push(101);
            proof {
                assert(out@ =~= base + spec_encode(spec_canon(v.deep())));
            }
        },
        Value::Dict(ps) => {
            let ghost ds = Value::deep_pairs(ps@, 0);
            let ghost cps = canon_pairs(ds, 0);
            let ghost ss = spec_sort_pairs(cps);
            proof {
                lemma_deep_pairs(ps@, 0);
                lemma_canon_pairs(ds, 0);
            }
            let n = ps.len();
            let mut idx: Vec<usize> = Vec::new();
            let mut k: usize = 0;
            while k < n
                invariant
                    0 <= k <= n,
                    n == ps@.len(),
                    ds == Value::deep_pairs(ps@, 0),
                    cps == canon_pairs(ds, 0),
                    ds.len() == n,
                    cps.len() == n,
                    forall|i: int|
                        0 <= i < n ==> ds[i] == ((#[trigger] ps@[i]).0@, ps@[i].1.deep()),
                    forall|i: int| 0 <= i < n ==> #[trigger] cps[i] == (ds[i].0, spec_canon(ds[i].1)),
                    idx@.len() == k,
                    forall|m: int| 0 <= m < k ==> (#[trigger] idx@[m]) < k,
                    sel_pairs(idx@, cps) == spec_sort_pairs(cps.take(k as int)),
                decreases n - k,
            {
                let ghost prev = sel_pairs(idx@, cps);
                let pos = find_insert_pos(ps, &idx, k);
                proof {
                    assert forall|m: int| 0 <= m < pos implies !lex_lt(
                        cps[k as int].0,
                        (#[trigger] prev[m]).0,
                    ) by {
                        assert(prev[m] == cps[idx@[m] as int]);
                        assert(cps[idx@[m] as int].0 == ps@[idx@[m] as int].0@);
                    }
                    if pos < idx@.len() {
                        assert(prev[pos as int] == cps[idx@[pos as int] as int]);
                        assert(cps[idx@[pos as int] as int].0 == ps@[idx@[pos as int] as int].0@);
                    }
                    lemma_insert_at(cps[k as int], prev, pos as int);
                    assert(cps.take(k + 1 as int).drop_last() =~= cps.take(k as int));
                    assert(cps.take(k + 1 as int).last() == cps[k as int]);
                }
                idx.insert(pos, k);
                proof {
                    assert(sel_pairs(idx@, cps) =~= prev.insert(pos as int, cps[k as int]));
                }
                k += 1;
            }
            proof {
                assert(cps.take(n as int) =~= cps);
                assert(sel_pairs(idx@, cps) == ss);
            }
            out.push(100);
            let ghost base = old(out)@;
            proof {
                assert(ss.len() == idx@.len());
                assert(out@ + enc_pairs(ss, 0) =~= base + seq![100u8] + enc_pairs(ss, 0));
            }
            let mut m: usize = 0;
            while m < idx.len()
                invariant
                    0 <= m <= idx@.len(),
                    idx@.len() == n,
                    n == ps@.len(),
                    cps.len() == n,
                    ss == spec_sort_pairs(cps),
                    ss == sel_pairs(idx@, cps),
                    ss.len() == n,
                    forall|t: int| 0 <= t < n ==> (#[trigger] idx@[t]) < n,
                    forall|i: int|
                        0 <= i < n ==> ds[i] == ((#[trigger] ps@[i]).0@, ps@[i].1.deep()),
                    forall|i: int| 0 <= i < n ==> #[trigger] cps[i] == (ds[i].0, spec_canon(ds[i].1)),
                    out@ + enc_pairs(ss, m as int) == base + seq![100u8] + enc_pairs(ss, 0),
                decreases idx@.len() - m,
            {
                let j = idx[m];
                let ghost before = out@;
                proof {
                    assert(ss[m as int] == cps[idx@[m as int] as int]);
                }
                push_len_prefixed(&ps[j].0, out);
                proof {
                    assert(decreases_to!(ps@ => ps@[j as int]));
                    assert(decreases_to!(ps@[j as int] => ps@[j as int].1));
                }
                encode_into(&ps[j].1, out);
                proof {
                    assert(out@ + enc_pairs(ss, m + 1) =~= before + enc_pairs(ss, m as int));
                }
                m += 1;
            }
            proof {
                assert(enc_pairs(ss, n as int) =~= Seq::<u8>::empty());
                assert(out@ =~= out@ + enc_pairs(ss, n as int));
            }
            out.push(101);
            proof {
                assert(out@ =~= base + spec_encode(spec_canon(v.deep())));
            }
        },
    }
}

/// The canonical encoding of `v`: dictionaries are emitted with their keys
/// in byte-lexicographic ascending order whatever order they are stored in.
pub fn encode(v: &Value) -> (r: Vec<u8>)
    ensures
        r@ == spec_encode(spec_canon(v.deep())),
{
    let mut out: Vec<u8> = Vec::new();
    encode_into(v, &mut out);
    proof {
        assert(Seq::<u8>::empty() + spec_encode(spec_canon(v.deep())) =~= spec_encode(
            spec_canon(v.deep()),
        ));
    }
    out
}

/// The length-prefixed encoding `<len>:<bytes>` of a byte string alone.
pub fn encode_length_prefixed(b: &Vec<u8>) -> (r: Vec<u8>)
    ensures
        r@ == enc_len_prefixed(b@),
{
    let mut out: Vec<u8> = Vec::new();
    push_len_prefixed(b, &mut out);
    proof {
        assert(Seq::<u8>::empty() + enc_len_prefixed(b@) =~= enc_len_prefixed(b@));
    }
    out
}

} // verus!
