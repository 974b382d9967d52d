//! The round-trip laws: decoding a canonical encoding yields the original
//! value and consumes exactly its encoding.

use vstd::prelude::*;

use crate::decode::digit_run_end;
use crate::decode::digits_val;
use crate::decode::is_digit;
use crate::decode::spec_decode;
use crate::decode::spec_decode_at;
use crate::decode::spec_decode_bytes;
use crate::decode::spec_decode_int;
use crate::decode::spec_decode_items;
use crate::decode::spec_decode_pairs;
use crate::decode::has_key;
use crate::encode::dec_repr;
use crate::encode::enc_items;
use crate::encode::enc_len_prefixed;
use crate::encode::enc_pairs;
use crate::encode::int_repr;
use crate::encode::spec_canon;
use crate::encode::spec_encode;
use crate::value::BencodeError;
use crate::value::SpecValue;
use crate::value::lex_lt;

verus! {

/// The decimal digits of a non-negative number are digits, and carry no
/// leading zero unless the number is zero.
pub proof fn lemma_dec_repr_digits(n: int)
    requires
        n >= 0,
    ensures
        dec_repr(n).len() >= 1,
        forall|i: int| 0 <= i < dec_repr(n).len() ==> is_digit(#[trigger] dec_repr(n)[i]),
        n == 0 ==> dec_repr(n) == seq![48u8],
        n > 0 ==> dec_repr(n)[0] != 48,
        n < 10 ==> dec_repr(n).len() == 1,
    decreases n,
{
    if n >= 10 {
        lemma_dec_repr_digits(n / 10);
    }
}

/// The value of a digit run depends only on the bytes of the run.
pub proof fn lemma_digits_val_embed(s: Seq<u8>, i: int, j: int, q: Seq<u8>)
    requires
        0 <= i <= j <= s.len(),
        s.subrange(i, j) == q,
    ensures
        digits_val(s, i, j) == digits_val(q, 0, q.len() as int),
    decreases j - i,
{
    if i < j {
        assert(q.len() == j - i);
        assert(s[j - 1] == q[q.len() - 1]);
        assert(s.subrange(i, j - 1) =~= q.subrange(0, q.len() - 1));
        lemma_digits_val_embed(s, i, j - 1, q.subrange(0, q.len() - 1));
        assert(digits_val(q.subrange(0, q.len() - 1), 0, q.len() - 1) == digits_val(
            q,
            0,
            q.len() - 1,
        )) by {
            lemma_digits_val_prefix(q, q.len() - 1);
        }
    }
}

/// The value of the first `j` digits of `q` ignores what follows them.
pub proof fn lemma_digits_val_prefix(q: Seq<u8>, j: int)
    requires
        0 <= j <= q.len(),
    ensures
        digits_val(q.subrange(0, j), 0, j) == digits_val(q, 0, j),
    decreases j,
{
    if j > 0 {
        assert(q.subrange(0, j)[j - 1] == q[j - 1]);
        lemma_digits_val_prefix(q, j - 1);
        assert(q.subrange(0, j).subrange(0, j - 1) =~= q.subrange(0, j - 1));
        lemma_digits_val_embed(q.subrange(0, j), 0, j - 1, q.subrange(0, j - 1));
        lemma_digits_val_embed(q, 0, j - 1, q.subrange(0, j - 1));
    }
}

/// Parsing the decimal digits of `n` yields `n` back.
pub proof fn lemma_dec_repr_val(n: int)
    requires
        n >= 0,
    ensures
        digits_val(dec_repr(n), 0, dec_repr(n).len() as int) == n,
    decreases n,
{
    let q = dec_repr(n);
    if n < 10 {
        assert(digits_val(q, 0, 1) == digits_val(q, 0, 0) * 10 + (q[0] - 48));
    } else {
        lemma_dec_repr_val(n / 10);
        lemma_dec_repr_digits(n / 10);
        let r = dec_repr(n / 10);
        assert(q == r.push((48 + n % 10) as u8));
        assert(q.len() == r.len() + 1);
        assert(digits_val(q, 0, q.len() as int) == digits_val(q, 0, r.len() as int) * 10 + (q[
            r.len() as int] - 48));
        assert(q.subrange(0, r.len() as int) =~= r);
        lemma_digits_val_embed(q, 0, r.len() as int, r);
        assert(q[r.len() as int] == (48 + n % 10) as u8);
        vstd::arithmetic::div_mod::lemma_fundamental_div_mod(n, 10);
    }
}

/// A maximal digit run is delimited by any non-digit (or the buffer end).
pub proof fn lemma_digit_run_stops(s: Seq<u8>, i: int, r: int)
    requires
        0 <= i,
        r >= 0,
        i + r <= s.len(),
        forall|m: int| i <= m < i + r ==> is_digit(#[trigger] s[m]),
        i + r == s.len() || !is_digit(s[i + r]),
    ensures
        digit_run_end(s, i) == i + r,
    decreases r,
{
    if r > 0 {
        lemma_digit_run_stops(s, i + 1, r - 1);
    }
}

/// The first byte of an encoding names the variant; it is never the
/// terminator `e`, and there is always at least one byte.
pub proof fn lemma_enc_head(v: SpecValue)
    ensures
        spec_encode(v).len() >= 1,
        spec_encode(v)[0] != 101,
        v matches SpecValue::Bytes(b) ==> is_digit(spec_encode(v)[0]),
        v matches SpecValue::Integer(n) ==> spec_encode(v)[0] == 105,
        v matches SpecValue::List(es) ==> spec_encode(v)[0] == 108,
        v matches SpecValue::Dict(ps) ==> spec_encode(v)[0] == 100,
{
    match v {
        SpecValue::Bytes(b) => {
            lemma_dec_repr_digits(b.len() as int);
            assert(spec_encode(v)[0] == dec_repr(b.len() as int)[0]);
        },
        SpecValue::Integer(n) => {},
        SpecValue::List(es) => {},
        SpecValue::Dict(ps) => {},
    }
}

/// Decoding an embedded length-prefixed byte string yields its bytes and
/// ends just past them.
pub proof fn lemma_rt_bytes(s: Seq<u8>, i: int, b: Seq<u8>)
    requires
        0 <= i,
        i + enc_len_prefixed(b).len() <= s.len(),
        s.subrange(i, i + enc_len_prefixed(b).len()) == enc_len_prefixed(b),
    ensures
        spec_decode_bytes(s, i) == Ok::<(Seq<u8>, int), BencodeError>(
            (b, i + enc_len_prefixed(b).len()),
        ),
{
    let r = dec_repr(b.len() as int);
    let e = enc_len_prefixed(b);
    let rl = r.len() as int;
    let el = e.len() as int;
    lemma_dec_repr_digits(b.len() as int);
    assert(el == rl + 1 + b.len());
    assert forall|m: int| i <= m < i + el implies s[m] == e[m - i] by {
        assert(e[m - i] == s.subrange(i, i + el)[m - i]);
    }
    assert(forall|m: int| 0 <= m < rl ==> e[m] == r[m]);
    assert(e[rl] == 58);
    assert forall|m: int| i <= m < i + rl implies is_digit(s[m]) by {
        assert(s[m] == e[m - i]);
        assert(e[m - i] == r[m - i]);
    }
    assert(s[i + rl] == e[rl]);
    assert(!is_digit(s[i + rl]));
    lemma_digit_run_stops(s, i, rl);
    let j = digit_run_end(s, i);
    assert(j == i + rl);
    assert(s.subrange(i, j) =~= r);
    lemma_digits_val_embed(s, i, j, r);
    lemma_dec_repr_val(b.len() as int);
    assert(digits_val(s, i, j) == b.len());
    assert(s[i] == e[0]);
    assert(e[0] == r[0]);
    assert(b.len() > 0 ==> s[i] != 48);
    assert(b.len() == 0 ==> rl == 1);
    assert forall|m: int| 0 <= m < b.len() implies s.subrange(j + 1, j + 1 + b.len())[m] == b[m] by {
        assert(s[j + 1 + m] == e[rl + 1 + m]);
        assert(e[rl + 1 + m] == b[m]);
    }
    assert(s.subrange(j + 1, j + 1 + b.len()) =~= b);
}

/// Decoding an embedded integer encoding yields the integer back and ends
/// just past the terminator.
pub proof fn lemma_rt_int(s: Seq<u8>, i: int, n: int)
    requires
        i64::MIN <= n <= i64::MAX,
        0 <= i,
        i + int_repr(n).len() + 2 <= s.len(),
        s.subrange(i, i + int_repr(n).len() + 2) == seq![105u8] + int_repr(n) + seq![101u8],
    ensures
        spec_decode_int(s, i) == Ok::<(SpecValue, int), BencodeError>(
            (SpecValue::Integer(n), i + int_repr(n).len() + 2),
        ),
{
    let p = int_repr(n);
    let e = seq![105u8] + p + seq![101u8];
    let pl = p.len() as int;
    let el = pl + 2;
    assert forall|m: int| i <= m < i + el implies s[m] == e[m - i] by {
        assert(e[m - i] == s.subrange(i, i + el)[m - i]);
    }
    assert(s[i] == e[0]);
    assert(s[i] == 105);
    assert(e[el - 1] == 101);
    if n < 0 {
        let r = dec_repr(-n);
        let rl = r.len() as int;
        lemma_dec_repr_digits(-n);
        assert(p == seq![45u8] + r);
        assert(pl == 1 + rl);
        assert(e[1] == 45);
        assert(s[i + 1] == e[1]);
        assert(i + 1 < s.len());
        let d0 = i + 2;
        assert(forall|m: int| 0 <= m < rl ==> e[2 + m] == r[m]);
        assert forall|m: int| d0 <= m < d0 + rl implies is_digit(s[m]) by {
            assert(s[m] == e[m - i]);
            assert(e[2 + (m - d0)] == r[m - d0]);
        }
        assert(s[d0 + rl] == e[2 + rl]);
        assert(s[d0 + rl] == 101);
        assert(!is_digit(s[d0 + rl]));
        lemma_digit_run_stops(s, d0, rl);
        let j = digit_run_end(s, d0);
        assert(j == d0 + rl);
        assert(s.subrange(d0, j) =~= r);
        lemma_digits_val_embed(s, d0, j, r);
        lemma_dec_repr_val(-n);
        assert(digits_val(s, d0, j) == -n);
        assert(s[d0] == e[2]);
        assert(e[2] == r[0]);
        assert(s[d0] != 48);
        assert(j + 1 == i + el);
    } else {
        let r = dec_repr(n);
        let rl = r.len() as int;
        lemma_dec_repr_digits(n);
        assert(p == r);
        assert(e[1] == r[0]);
        assert(s[i + 1] == e[1]);
        assert(is_digit(s[i + 1]));
        assert(s[i + 1] != 45);
        let d0 = i + 1;
        assert(forall|m: int| 0 <= m < rl ==> e[1 + m] == r[m]);
        assert forall|m: int| d0 <= m < d0 + rl implies is_digit(s[m]) by {
            assert(s[m] == e[m - i]);
            assert(e[1 + (m - d0)] == r[m - d0]);
        }
        assert(s[d0 + rl] == e[1 + rl]);
        assert(s[d0 + rl] == 101);
        assert(!is_digit(s[d0 + rl]));
        lemma_digit_run_stops(s, d0, rl);
        let j = digit_run_end(s, d0);
        assert(j == d0 + rl);
        assert(s.subrange(d0, j) =~= r);
        lemma_digits_val_embed(s, d0, j, r);
        lemma_dec_repr_val(n);
        assert(digits_val(s, d0, j) == n);
        assert(s[d0] == e[1]);
        assert(n == 0 ==> rl == 1);
        assert(n > 0 ==> s[d0] != 48);
        assert(j + 1 == i + el);
    }
}

/// The depth of a run of elements bounds the depth of each element.
pub proof fn lemma_items_depth_ge(es: Seq<SpecValue>, k: int, m: int)
    requires
        0 <= k <= m < es.len(),
    ensures
        SpecValue::items_depth(es, k) >= es[m].depth(),
    decreases m - k,
{
    if k < m {
        lemma_items_depth_ge(es, k + 1, m);
    }
}

/// The depth of a run of pairs bounds the depth of each value.
pub proof fn lemma_pairs_depth_ge(ps: Seq<(Seq<u8>, SpecValue)>, k: int, m: int)
    requires
        0 <= k <= m < ps.len(),
    ensures
        SpecValue::pairs_depth(ps, k) >= ps[m].1.depth(),
    decreases m - k,
{
    if k < m {
        lemma_pairs_depth_ge(ps, k + 1, m);
    }
}

/// No key comes before itself.
pub proof fn lemma_lex_lt_irrefl(a: Seq<u8>)
    ensures
        !lex_lt(a, a),
    decreases a.len(),
{
    if a.len() > 0 {
        lemma_lex_lt_irrefl(a.drop_first());
    }
}

/// Decoding an embedded value encoding yields the value and ends just past
/// its encoding.
pub proof fn lemma_rt_val(s: Seq<u8>, i: int, v: SpecValue, depth: nat)
    requires
        v.wf(),
        depth >= v.depth(),
        0 <= i,
        i + spec_encode(v).len() <= s.len(),
        s.subrange(i, i + spec_encode(v).len() as int) == spec_encode(v),
    ensures
        spec_decode_at(s, i, depth) == Ok::<(SpecValue, int), BencodeError>(
            (v, i + spec_encode(v).len()),
        ),
    decreases v, 0int, 0int,
{
    let e = spec_encode(v);
    let el = e.len() as int;
    lemma_enc_head(v);
    assert forall|m: int| i <= m < i + el implies s[m] == e[m - i] by {
        assert(e[m - i] == s.subrange(i, i + el)[m - i]);
    }
    assert(s[i] == e[0]);
    match v {
        SpecValue::Bytes(b) => {
            lemma_rt_bytes(s, i, b);
        },
        SpecValue::Integer(n) => {
            assert(!is_digit(105));
            assert(e == seq![105u8] + int_repr(n) + seq![101u8]);
            assert(el == int_repr(n).len() + 2);
            lemma_rt_int(s, i, n);
        },
        SpecValue::List(es) => {
            let inner = enc_items(es, 0);
            let li = inner.len() as int;
            assert(e == seq![108u8] + inner + seq![101u8]);
            assert(el == li + 2);
            assert(v.depth() == 1 + SpecValue::items_depth(es, 0));
            assert(depth >= 1);
            assert forall|m: int| 0 <= m < es.len() implies (depth - 1) as nat >= (
            #[trigger] es[m]).depth() by {
                lemma_items_depth_ge(es, 0, m);
            }
            assert forall|m: int|
                0 <= m < li implies s.subrange(i + 1, i + 1 + li)[m] == inner[m] by {
                assert(s[i + 1 + m] == e[1 + m]);
                assert(e[1 + m] == inner[m]);
            }
            assert(s.subrange(i + 1, i + 1 + li) =~= inner);
            assert(s[i + 1 + li] == e[1 + li]);
            assert(s[i + 1 + li] == 101);
            lemma_rt_items(s, i + 1, es, 0, (depth - 1) as nat);
            assert(es.skip(0) =~= es);
        },
        SpecValue::Dict(ps) => {
            let inner = enc_pairs(ps, 0);
            let li = inner.len() as int;
            assert(e == seq![100u8] + inner + seq![101u8]);
            assert(el == li + 2);
            assert(v.depth() == 1 + SpecValue::pairs_depth(ps, 0));
            assert(depth >= 1);
            assert forall|m: int| 0 <= m < ps.len() implies (depth - 1) as nat >= (
            #[trigger] ps[m]).1.depth() by {
                lemma_pairs_depth_ge(ps, 0, m);
            }
            assert forall|m: int|
                0 <= m < li implies s.subrange(i + 1, i + 1 + li)[m] == inner[m] by {
                assert(s[i + 1 + m] == e[1 + m]);
                assert(e[1 + m] == inner[m]);
            }
            assert(s.subrange(i + 1, i + 1 + li) =~= inner);
            assert(s[i + 1 + li] == e[1 + li]);
            assert(s[i + 1 + li] == 101);
            lemma_rt_pairs(s, i + 1, ps, 0, (depth - 1) as nat);
            assert(ps.take(0) =~= Seq::empty());
        },
    }
}

/// Decoding an embedded run of element encodings followed by `e` yields the
/// elements.
pub proof fn lemma_rt_items(s: Seq<u8>, i: int, es: Seq<SpecValue>, k: int, depth: nat)
    requires
        0 <= k <= es.len(),
        forall|m: int| k <= m < es.len() ==> (#[trigger] es[m]).wf(),
        forall|m: int| k <= m < es.len() ==> depth >= (#[trigger] es[m]).depth(),
        0 <= i,
        i + enc_items(es, k).len() + 1 <= s.len(),
        s.subrange(i, i + enc_items(es, k).len() as int) == enc_items(es, k),
        s[i + enc_items(es, k).len()] == 101,
    ensures
        spec_decode_items(s, i, depth) == Ok::<(Seq<SpecValue>, int), BencodeError>(
            (es.skip(k), i + enc_items(es, k).len() + 1),
        ),
    decreases es, 1int, es.len() - k,
{
    let w = enc_items(es, k);
    let lw = w.len() as int;
    assert forall|m: int| i <= m < i + lw implies s[m] == w[m - i] by {
        assert(w[m - i] == s.subrange(i, i + lw)[m - i]);
    }
    if k == es.len() {
        assert(lw == 0);
        assert(s[i] == 101);
        assert(es.skip(k) =~= Seq::<SpecValue>::empty());
    } else {
        let e0 = spec_encode(es[k]);
        let l0 = e0.len() as int;
        let rest = enc_items(es, k + 1);
        let l1 = rest.len() as int;
        assert(w == e0 + rest);
        assert(lw == l0 + l1);
        lemma_enc_head(es[k]);
        assert(s[i] == w[0]);
        assert(w[0] == e0[0]);
        assert(s[i] != 101);
        assert forall|m: int| 0 <= m < l0 implies s.subrange(i, i + l0)[m] == e0[m] by {
            assert(s[i + m] == w[m]);
            assert(w[m] == e0[m]);
        }
        assert(s.subrange(i, i + l0) =~= e0);
        lemma_rt_val(s, i, es[k], depth);
        let j = i + l0;
        assert forall|m: int| 0 <= m < l1 implies s.subrange(j, j + l1)[m] == rest[m] by {
            assert(s[j + m] == w[l0 + m]);
            assert(w[l0 + m] == rest[m]);
        }
        assert(s.subrange(j, j + l1) =~= rest);
        assert(s[j + l1] == 101);
        lemma_rt_items(s, j, es, k + 1, depth);
        assert(seq![es[k]] + es.skip(k + 1) =~= es.skip(k));
    }
}

/// Decoding an embedded run of pair encodings followed by `e`, with the
/// pairs before `k` already accumulated, yields the whole pair sequence.
pub proof fn lemma_rt_pairs(s: Seq<u8>, i: int, ps: Seq<(Seq<u8>, SpecValue)>, k: int, depth: nat)
    requires
        0 <= k <= ps.len(),
        SpecValue::keys_sorted(ps),
        forall|m: int| k <= m < ps.len() ==> (#[trigger] ps[m]).1.wf(),
        forall|m: int| k <= m < ps.len() ==> depth >= (#[trigger] ps[m]).1.depth(),
        0 <= i,
        i + enc_pairs(ps, k).len() + 1 <= s.len(),
        s.subrange(i, i + enc_pairs(ps, k).len() as int) == enc_pairs(ps, k),
        s[i + enc_pairs(ps, k).len()] == 101,
    ensures
        spec_decode_pairs(s, i, depth, ps.take(k)) == Ok::<
            (Seq<(Seq<u8>, SpecValue)>, int),
            BencodeError,
        >((ps, i + enc_pairs(ps, k).len() + 1)),
    decreases ps, 1int, ps.len() - k,
{
    let w = enc_pairs(ps, k);
    let lw = w.len() as int;
    assert forall|m: int| i <= m < i + lw implies s[m] == w[m - i] by {
        assert(w[m - i] == s.subrange(i, i + lw)[m - i]);
    }
    if k == ps.len() {
        assert(lw == 0);
        assert(s[i] == 101);
        assert(ps.take(k) =~= ps);
    } else {
        let key = ps[k].0;
        let ek = enc_len_prefixed(key);
        let lk = ek.len() as int;
        let ev = spec_encode(ps[k].1);
        let lv = ev.len() as int;
        let rest = enc_pairs(ps, k + 1);
        let l1 = rest.len() as int;
        assert(w == ek + ev + rest);
        assert(lw == lk + lv + l1);
        lemma_dec_repr_digits(key.len() as int);
        assert(ek[0] == dec_repr(key.len() as int)[0]);
        assert(s[i] == w[0]);
        assert(w[0] == ek[0]);
        assert(is_digit(s[i]));
        assert(s[i] != 101);
        assert forall|m: int| 0 <= m < lk implies s.subrange(i, i + lk)[m] == ek[m] by {
            assert(s[i + m] == w[m]);
            assert(w[m] == ek[m]);
        }
        assert(s.subrange(i, i + lk) =~= ek);
        lemma_rt_bytes(s, i, key);
        // the new key never repeats an accumulated one: keys are sorted
        assert forall|m: int| 0 <= m < k implies (#[trigger] ps.take(k)[m]).0 != key by {
            assert(ps.take(k)[m] == ps[m]);
            assert(lex_lt(ps[m].0, ps[k].0));
            if ps[m].0 == key {
                lemma_lex_lt_irrefl(key);
            }
        }
        assert(!has_key(ps.take(k), key));
        let j = i + lk;
        assert forall|m: int| 0 <= m < lv implies s.subrange(j, j + lv)[m] == ev[m] by {
            assert(s[j + m] == w[lk + m]);
            assert(w[lk + m] == ev[m]);
        }
        assert(s.subrange(j, j + lv) =~= ev);
        lemma_enc_head(ps[k].1);
        lemma_rt_val(s, j, ps[k].1, depth);
        let j2 = j + lv;
        assert forall|m: int| 0 <= m < l1 implies s.subrange(j2, j2 + l1)[m] == rest[m] by {
            assert(s[j2 + m] == w[lk + lv + m]);
            assert(w[lk + lv + m] == rest[m]);
        }
        assert(s.subrange(j2, j2 + l1) =~= rest);
        assert(s[j2 + l1] == 101);
        lemma_rt_pairs(s, j2, ps, k + 1, depth);
        assert((key, ps[k].1) == ps[k]);
        assert(ps.take(k).push(ps[k]) =~= ps.take(k + 1));
    }
}

/// Byte-lexicographic order is asymmetric.
pub proof fn lemma_lex_lt_asym(a: Seq<u8>, b: Seq<u8>)
    requires
        lex_lt(a, b),
    ensures
        !lex_lt(b, a),
    decreases a.len(),
{
    if a.len() > 0 && b.len() > 0 && a[0] == b[0] {
        lemma_lex_lt_asym(a.drop_first(), b.drop_first());
    }
}

/// Inserting a pair whose key is not below any key of a sequence appends it.
pub proof fn lemma_insert_ge_all(p: (Seq<u8>, SpecValue), s: Seq<(Seq<u8>, SpecValue)>)
    requires
        forall|m: int| 0 <= m < s.len() ==> !lex_lt(p.0, (#[trigger] s[m]).0),
    ensures
        crate::encode::spec_insert_pair(p, s) == s.push(p),
    decreases s.len(),
{
    if s.len() == 0 {
        assert(crate::encode::spec_insert_pair(p, s) =~= s.push(p));
    } else {
        let t = s.drop_first();
        assert(forall|m: int| 0 <= m < t.len() ==> (#[trigger] t[m]) == s[m + 1]);
        lemma_insert_ge_all(p, t);
        assert(seq![s[0]] + t.push(p) =~= s.push(p));
    }
}

/// Sorting a pair sequence whose keys are already strictly increasing
/// leaves it unchanged.
pub proof fn lemma_sort_id(ps: Seq<(Seq<u8>, SpecValue)>)
    requires
        SpecValue::keys_sorted(ps),
    ensures
        crate::encode::spec_sort_pairs(ps) == ps,
    decreases ps.len(),
{
    if ps.len() > 0 {
        let t = ps.drop_last();
        assert(forall|m: int| 0 <= m < t.len() ==> (#[trigger] t[m]) == ps[m]);
        assert(SpecValue::keys_sorted(t));
        lemma_sort_id(t);
        assert forall|m: int| 0 <= m < t.len() implies !lex_lt(
            ps.last().0,
            (#[trigger] t[m]).0,
        ) by {
            assert(lex_lt(ps[m].0, ps.last().0));
            lemma_lex_lt_asym(ps[m].0, ps.last().0);
        }
        lemma_insert_ge_all(ps.last(), t);
        assert(t.push(ps.last()) =~= ps);
    }
}

/// A well-formed value is already canonical.
pub proof fn lemma_canon_id(v: SpecValue)
    requires
        v.wf(),
    ensures
        spec_canon(v) == v,
    decreases v, 0int, 0int,
{
    match v {
        SpecValue::Bytes(_) => {},
        SpecValue::Integer(_) => {},
        SpecValue::List(es) => {
            lemma_canon_items_id(es, 0);
            assert(es.skip(0) =~= es);
        },
        SpecValue::Dict(ps) => {
            lemma_canon_pairs_id(ps, 0);
            assert(ps.skip(0) =~= ps);
            lemma_sort_id(ps);
        },
    }
}

/// Canonicalisation leaves well-formed elements `es[k..]` unchanged.
pub proof fn lemma_canon_items_id(es: Seq<SpecValue>, k: int)
    requires
        0 <= k <= es.len(),
        forall|m: int| 0 <= m < es.len() ==> (#[trigger] es[m]).wf(),
    ensures
        crate::encode::canon_items(es, k) == es.skip(k),
    decreases es, 1int, es.len() - k,
{
    if k < es.len() {
        lemma_canon_id(es[k]);
        lemma_canon_items_id(es, k + 1);
        assert(seq![es[k]] + es.skip(k + 1) =~= es.skip(k));
    } else {
        assert(es.skip(k) =~= Seq::<SpecValue>::empty());
    }
}

/// Canonicalisation leaves well-formed pair values `ps[k..]` unchanged.
pub proof fn lemma_canon_pairs_id(ps: Seq<(Seq<u8>, SpecValue)>, k: int)
    requires
        0 <= k <= ps.len(),
        forall|m: int| 0 <= m < ps.len() ==> (#[trigger] ps[m]).1.wf(),
    ensures
        crate::encode::canon_pairs(ps, k) == ps.skip(k),
    decreases ps, 1int, ps.len() - k,
{
    if k < ps.len() {
        lemma_canon_id(ps[k].1);
        lemma_canon_pairs_id(ps, k + 1);
        assert((ps[k].0, ps[k].1) == ps[k]);
        assert(seq![ps[k]] + ps.skip(k + 1) =~= ps.skip(k));
    } else {
        assert(ps.skip(k) =~= Seq::<(Seq<u8>, SpecValue)>::empty());
    }
}

/// Round trip through the encoder: for a well-formed value (unique, sorted
/// keys at every depth), what the encoder emits decodes to the value back.
pub proof fn lemma_encode_decode(v: SpecValue, depth: nat)
    requires
        v.wf(),
        depth >= v.depth(),
    ensures
        spec_decode(spec_encode(spec_canon(v)), depth) == Ok::<(SpecValue, int), BencodeError>(
            (v, spec_encode(spec_canon(v)).len() as int),
        ),
{
    lemma_canon_id(v);
    lemma_round_trip(v, depth);
}

/// Round trip: decoding the canonical encoding of a well-formed value, with
/// any depth allowance at least the value's own nesting depth, yields the
/// value back and consumes the whole encoding.
pub proof fn lemma_round_trip(v: SpecValue, depth: nat)
    requires
        v.wf(),
        depth >= v.depth(),
    ensures
        spec_decode(spec_encode(v), depth) == Ok::<(SpecValue, int), BencodeError>(
            (v, spec_encode(v).len() as int),
        ),
{
    let e = spec_encode(v);
    assert(e.subrange(0, e.len() as int) =~= e);
    lemma_rt_val(e, 0, v, depth);
}

/// Decoding a length-prefixed byte string alone yields those bytes, with
/// the offset just past the digits, the colon and the bytes.
pub proof fn lemma_length_prefixed_round_trip(b: Seq<u8>, depth: nat)
    ensures
        spec_decode(enc_len_prefixed(b), depth) == Ok::<(SpecValue, int), BencodeError>(
            (SpecValue::Bytes(b), enc_len_prefixed(b).len() as int),
        ),
        enc_len_prefixed(b).len() == dec_repr(b.len() as int).len() + 1 + b.len(),
{
    lemma_enc_head(SpecValue::Bytes(b));
    let e = enc_len_prefixed(b);
    assert(e == spec_encode(SpecValue::Bytes(b)));
    assert(e.subrange(0, e.len() as int) =~= e);
    lemma_rt_val(e, 0, SpecValue::Bytes(b), depth);
}

/// A non-empty digit run with no leading zero is the decimal representation
/// of its own value.
pub proof fn lemma_dec_repr_of_digits(s: Seq<u8>, i: int, j: int)
    requires
        0 <= i < j <= s.len(),
        crate::decode::digits_ok(s, i, j),
        forall|m: int| i <= m < j ==> is_digit(#[trigger] s[m]),
    ensures
        dec_repr(digits_val(s, i, j)) == s.subrange(i, j),
    decreases j - i,
{
    let n = digits_val(s, i, j);
    crate::decode::lemma_digits_val_nonneg(s, i, j);
    if j == i + 1 {
        assert(n == digits_val(s, i, i) * 10 + (s[i] - 48));
        assert(n < 10);
        assert(dec_repr(n) =~= s.subrange(i, j));
    } else {
        assert(s[i] != 48);
        crate::decode::lemma_digits_val_lower(s, i, j);
        crate::decode::lemma_pow10_mono(1, (j - i - 1) as nat);
        assert(n >= 10);
        let np = digits_val(s, i, j - 1);
        let d = s[j - 1] - 48;
        crate::decode::lemma_digits_val_nonneg(s, i, j - 1);
        assert(n == np * 10 + d);
        vstd::arithmetic::div_mod::lemma_fundamental_div_mod_converse(n, 10, np, d);
        assert(n / 10 == np);
        assert(n % 10 == d);
        lemma_dec_repr_of_digits(s, i, j - 1);
        assert(dec_repr(n) == dec_repr(np).push((48 + d) as u8));
        assert(s.subrange(i, j - 1).push(s[j - 1]) =~= s.subrange(i, j));
    }
}

/// A successful byte-string parse consumed exactly the length-prefixed form
/// of what it returned.
pub proof fn lemma_sound_bytes(s: Seq<u8>, i: int)
    requires
        0 <= i < s.len(),
    ensures
        spec_decode_bytes(s, i) matches Ok((b, j)) ==> i < j <= s.len() && s.subrange(i, j)
            == enc_len_prefixed(b) && j - i == enc_len_prefixed(b).len(),
{
    crate::decode::lemma_decode_bytes_bounds(s, i);
    if let Ok((b, j)) = spec_decode_bytes(s, i) {
        let r = digit_run_end(s, i);
        crate::decode::lemma_digit_run_end_bounds(s, i);
        crate::decode::lemma_digit_run_end_digits(s, i);
        let n = digits_val(s, i, r);
        crate::decode::lemma_digits_val_nonneg(s, i, r);
        lemma_dec_repr_of_digits(s, i, r);
        assert(b == s.subrange(r + 1, r + 1 + n));
        assert(b.len() == n);
        assert(enc_len_prefixed(b) == dec_repr(n) + seq![58u8] + b);
        assert(s.subrange(i, j) =~= s.subrange(i, r) + seq![s[r]] + s.subrange(r + 1, r + 1 + n));
    }
}

/// A successful integer parse consumed exactly the decimal form of what it
/// returned, between the tag and the terminator.
pub proof fn lemma_sound_int(s: Seq<u8>, i: int)
    requires
        0 <= i < s.len(),
    ensures
        spec_decode_int(s, i) matches Ok((v, j)) ==> v matches SpecValue::Integer(n) && i + 1 < j
            <= s.len() && s.subrange(i + 1, j - 1) == int_repr(n) && s[j - 1] == 101 && j - i
            == int_repr(n).len() + 2,
{
    crate::decode::lemma_decode_int_bounds(s, i);
    if let Ok((v, j)) = spec_decode_int(s, i) {
        let neg = i + 1 < s.len() && s[i + 1] == 45;
        let d0 = if neg {
            i + 2
        } else {
            i + 1
        };
        let r = digit_run_end(s, d0);
        crate::decode::lemma_digit_run_end_bounds(s, d0);
        crate::decode::lemma_digit_run_end_digits(s, d0);
        let m = digits_val(s, d0, r);
        crate::decode::lemma_digits_val_nonneg(s, d0, r);
        lemma_dec_repr_of_digits(s, d0, r);
        if neg {
            let n = -m;
            assert(m > 0);
            assert(int_repr(n) == seq![45u8] + dec_repr(m));
            assert(s.subrange(i + 1, j - 1) =~= seq![s[i + 1]] + s.subrange(d0, r));
        } else {
            assert(int_repr(m) == dec_repr(m));
            assert(s.subrange(i + 1, j - 1) =~= s.subrange(d0, r));
        }
    }
}

/// `enc_items` of a sequence with one element put in front.
pub proof fn lemma_enc_items_cons(v: SpecValue, vs: Seq<SpecValue>, k: int)
    requires
        0 <= k <= vs.len(),
    ensures
        enc_items(seq![v] + vs, k + 1) == enc_items(vs, k),
    decreases vs.len() - k,
{
    let w = seq![v] + vs;
    if k < vs.len() {
        assert(w[k + 1] == vs[k]);
        lemma_enc_items_cons(v, vs, k + 1);
    }
}

/// `enc_pairs` of a sequence with one pair put in front.
pub proof fn lemma_enc_pairs_cons(
    p: (Seq<u8>, SpecValue),
    ps: Seq<(Seq<u8>, SpecValue)>,
    k: int,
)
    requires
        0 <= k <= ps.len(),
    ensures
        enc_pairs(seq![p] + ps, k + 1) == enc_pairs(ps, k),
    decreases ps.len() - k,
{
    let w = seq![p] + ps;
    if k < ps.len() {
        assert(w[k + 1] == ps[k]);
        lemma_enc_pairs_cons(p, ps, k + 1);
    }
}

/// Whatever the decoder accepted is exactly the encoding, in stored order,
/// of what it returned.
pub proof fn lemma_sound_val(s: Seq<u8>, i: int, depth: nat)
    ensures
        spec_decode_at(s, i, depth) matches Ok((v, j)) ==> 0 <= i < j <= s.len() && s.subrange(
            i,
            j,
        ) == spec_encode(v),
    decreases s.len() - i, 0int,
{
    crate::decode::lemma_decode_at_bounds(s, i, depth);
    if 0 <= i < s.len() {
        if is_digit(s[i]) {
            lemma_sound_bytes(s, i);
        } else if s[i] == 105 {
            lemma_sound_int(s, i);
            if let Ok((v, j)) = spec_decode_int(s, i) {
                assert(s.subrange(i, j) =~= seq![s[i]] + s.subrange(i + 1, j - 1) + seq![
                    s[j - 1]
                ]);
            }
        } else if s[i] == 108 && depth > 0 {
            lemma_sound_items(s, i + 1, (depth - 1) as nat);
            if let Ok((vs, k)) = spec_decode_items(s, i + 1, (depth - 1) as nat) {
                assert(s.subrange(i, k) =~= seq![s[i]] + s.subrange(i + 1, k - 1) + seq![
                    s[k - 1]
                ]);
            }
        } else if s[i] == 100 && depth > 0 {
            lemma_sound_pairs(s, i + 1, (depth - 1) as nat, Seq::empty());
            if let Ok((ps, k)) = spec_decode_pairs(s, i + 1, (depth - 1) as nat, Seq::empty()) {
                assert(ps.skip(0) =~= ps);
                assert(s.subrange(i, k) =~= seq![s[i]] + s.subrange(i + 1, k - 1) + seq![
                    s[k - 1]
                ]);
            }
        }
    }
}

/// An accepted run of list elements spans exactly the encodings of the
/// elements, with the terminator after them.
pub proof fn lemma_sound_items(s: Seq<u8>, i: int, depth: nat)
    ensures
        spec_decode_items(s, i, depth) matches Ok((vs, k)) ==> 0 <= i < k <= s.len() && s[k - 1]
            == 101 && s.subrange(i, k - 1) == enc_items(vs, 0),
    decreases s.len() - i, 1int,
{
    crate::decode::lemma_decode_items_bounds(s, i, depth);
    if 0 <= i < s.len() && s[i] != 101 {
        lemma_sound_val(s, i, depth);
        if let Ok((v, j)) = spec_decode_at(s, i, depth) {
            if i < j <= s.len() {
                lemma_sound_items(s, j, depth);
                if let Ok((vs2, k)) = spec_decode_items(s, j, depth) {
                    let vs = seq![v] + vs2;
                    lemma_enc_items_cons(v, vs2, 0);
                    assert(vs[0] == v);
                    assert(enc_items(vs, 0) == spec_encode(v) + enc_items(vs2, 0));
                    assert(s.subrange(i, k - 1) =~= s.subrange(i, j) + s.subrange(j, k - 1));
                }
            }
        }
    }
}

/// An accepted run of dictionary pairs extends the accumulator with pairs
/// whose encodings, in order, span exactly the consumed bytes.
pub proof fn lemma_sound_pairs(s: Seq<u8>, i: int, depth: nat, acc: Seq<(Seq<u8>, SpecValue)>)
    ensures
        spec_decode_pairs(s, i, depth, acc) matches Ok((ps, k)) ==> 0 <= i < k <= s.len() && s[k
            - 1] == 101 && ps.len() >= acc.len() && ps.take(acc.len() as int) == acc
            && s.subrange(i, k - 1) == enc_pairs(ps.skip(acc.len() as int), 0),
    decreases s.len() - i, 1int,
{
    crate::decode::lemma_decode_pairs_bounds(s, i, depth, acc);
    if 0 <= i < s.len() {
        if s[i] == 101 {
            if let Ok((ps, k)) = spec_decode_pairs(s, i, depth, acc) {
                assert(ps == acc);
                assert(ps.take(acc.len() as int) =~= acc);
                assert(ps.skip(acc.len() as int) =~= Seq::<(Seq<u8>, SpecValue)>::empty());
                assert(s.subrange(i, i) =~= Seq::<u8>::empty());
            }
        } else if is_digit(s[i]) {
            lemma_sound_bytes(s, i);
            if let Ok((key, j)) = spec_decode_bytes(s, i) {
                if !has_key(acc, key) && i < j <= s.len() {
                    lemma_sound_val(s, j, depth);
                    if let Ok((v, j2)) = spec_decode_at(s, j, depth) {
                        if j < j2 <= s.len() {
                            let acc2 = acc.push((key, v));
                            lemma_sound_pairs(s, j2, depth, acc2);
                            if let Ok((ps, k)) = spec_decode_pairs(s, j2, depth, acc2) {
                                assert(ps.take(acc2.len() as int) == acc2);
                                assert forall|m: int| 0 <= m < acc.len() implies ps.take(
                                    acc.len() as int,
                                )[m] == acc[m] by {
                                    assert(ps[m] == ps.take(acc2.len() as int)[m]);
                                    assert(acc2[m] == acc[m]);
                                }
                                assert(ps.take(acc.len() as int) =~= acc);
                                let sfx = ps.skip(acc.len() as int);
                                let sfx2 = ps.skip(acc2.len() as int);
                                assert(ps[acc.len() as int] == ps.take(acc2.len() as int)[acc.len() as int]);
                                assert(ps[acc.len() as int] == (key, v));
                                assert(sfx =~= seq![(key, v)] + sfx2);
                                lemma_enc_pairs_cons((key, v), sfx2, 0);
                                assert(enc_pairs(sfx, 0) == enc_len_prefixed(key) + spec_encode(v)
                                    + enc_pairs(sfx2, 0));
                                assert(s.subrange(i, k - 1) =~= s.subrange(i, j) + s.subrange(
                                    j,
                                    j2,
                                ) + s.subrange(j2, k - 1));
                            }
                        }
                    }
                }
            }
        }
    }
}

/// Canonicalisation law: whatever the decoder accepts encodes back, in
/// stored order, to exactly the bytes it consumed; where the decoded value
/// is well formed (its keys already sorted), the canonical encoder
/// reproduces those bytes exactly.
pub proof fn lemma_decode_then_encode(s: Seq<u8>, max_depth: nat)
    ensures
        spec_decode(s, max_depth) matches Ok((v, n)) ==> s.subrange(0, n) == spec_encode(v) && (
        v.wf() ==> s.subrange(0, n) == spec_encode(spec_canon(v))),
{
    lemma_sound_val(s, 0, max_depth);
    if let Ok((v, n)) = spec_decode(s, max_depth) {
        if v.wf() {
            lemma_canon_id(v);
        }
    }
}

} // verus!

