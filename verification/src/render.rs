//! A human-readable textual projection of a decoded value: byte strings
//! quoted with non-printable bytes escaped as `\xHH`, integers in decimal,
//! lists bracketed and dictionaries braced, in stored order.

use vstd::prelude::*;

use crate::digest::hex_digit;
use crate::encode::int_repr;
use crate::value::SpecValue;
use crate::value::Value;
use crate::value::lemma_deep_items;
use crate::value::lemma_deep_pairs;

verus! {

broadcast use vstd::std_specs::vec::group_vec_axioms;

/// The rendering of one byte inside a quoted string: printable bytes stand
/// for themselves, quotes and backslashes are escaped, anything else is a
/// `\xHH` escape.
pub open spec fn esc(c: u8) -> Seq<u8> {
    if c == 34 || c == 92 {
        seq![92u8, c]
    } else if 32 <= c <= 126 {
        seq![c]
    } else {
        seq![92u8, 120u8, hex_digit(c as int / 16), hex_digit(c as int % 16)]
    }
}

/// The rendering of the bytes `b[k..]` inside a quoted string.
pub open spec fn render_bytes(b: Seq<u8>, k: int) -> Seq<u8>
    decreases b.len() - k,
{
    if k < 0 || k >= b.len() {
        Seq::empty()
    } else {
        esc(b[k]) + render_bytes(b, k + 1)
    }
}

/// The textual projection of a value.
pub open spec fn spec_render(v: SpecValue) -> Seq<u8>
    decreases v, 0int, 0int,
{
    match v {
        SpecValue::Bytes(b) => seq![34u8] + render_bytes(b, 0) + seq![34u8],
        SpecValue::Integer(n) => int_repr(n),
        SpecValue::List(es) => seq![91u8] + render_items(es, 0) + seq![93u8],
        SpecValue::Dict(ps) => seq![123u8] + render_pairs(ps, 0) + seq![125u8],
    }
}

/// The renderings of the elements `es[k..]`, separated by `, `.
pub open spec fn render_items(es: Seq<SpecValue>, k: int) -> Seq<u8>
    decreases es, 1int, es.len() - k,
{
    if k < 0 || k >= es.len() {
        Seq::empty()
    } else {
        spec_render(es[k]) + (if k + 1 < es.len() {
            seq![44u8, 32u8]
        } else {
            Seq::empty()
        }) + render_items(es, k + 1)
    }
}

/// The renderings of the pairs `ps[k..]` as `"key": value`, separated by
/// `, `.
pub open spec fn render_pairs(ps: Seq<(Seq<u8>, SpecValue)>, k: int) -> Seq<u8>
    decreases ps, 1int, ps.len() - k,
{
    if k < 0 || k >= ps.len() {
        Seq::empty()
    } else {
        seq![34u8] + render_bytes(ps[k].0, 0) + seq![34u8, 58u8, 32u8] + spec_render(ps[k].1) + (
        if k + 1 < ps.len() {
            seq![44u8, 32u8]
        } else {
            Seq::empty()
        }) + render_pairs(ps, k + 1)
    }
}

/// Append one escaped byte.
fn push_esc(c: u8, out: &mut Vec<u8>)
    ensures
        final(out)@ == old(out)@ + esc(c),
{
    if c == 34 || c == 92 {
        out.push(92);
        out.push(c);
        proof {
            assert(out@ =~= old(out)@ + esc(c));
        }
    } else if 32 <= c && c <= 126 {
        out.push(c);
        proof {
            assert(out@ =~= old(out)@ + esc(c));
        }
    } else {
        let hi = c / 16;
        let lo = c % 16;
        out.push(92);
        out.push(120);
        out.push(
            if hi < 10 {
                48 + hi
            } else {
                87 + hi
            },
        );
        out.push(
            if lo < 10 {
                48 + lo
            } else {
                87 + lo
            },
        );
        proof {
            assert(out@ =~= old(out)@ + esc(c));
        }
    }
}

/// Append a quoted, escaped byte string.
fn push_quoted(b: &Vec<u8>, out: &mut Vec<u8>)
    ensures
        final(out)@ == old(out)@ + seq![34u8] + render_bytes(b@, 0) + seq![34u8],
{
    out.push(34);
    let ghost mid = out@;
    let mut k: usize = 0;
    proof {
        assert(out@ + render_bytes(b@, 0) =~= mid + render_bytes(b@, 0));
    }
    while k < b.len()
        invariant
            0 <= k <= b@.len(),
            out@ + render_bytes(b@, k as int) == mid + render_bytes(b@, 0),
        decreases b@.len() - k,
    {
        let ghost before = out@;
        push_esc(b[k], out);
        proof {
            assert(out@ + render_bytes(b@, k + 1) =~= before + render_bytes(b@, k as int));
        }
        k += 1;
    }
    proof {
        assert(render_bytes(b@, b@.len() as int) =~= Seq::<u8>::empty());
        assert(out@ =~= mid + render_bytes(b@, 0));
    }
    out.push(34);
    proof {
        assert(out@ =~= old(out)@ + seq![34u8] + render_bytes(b@, 0) + seq![34u8]);
    }
}

/// Append the textual projection of `v`.
#[verifier::loop_isolation(false)]
#[verifier::rlimit(60)]
fn render_into(v: &Value, out: &mut Vec<u8>)
    ensures
        final(out)@ == old(out)@ + spec_render(v.deep()),
    decreases v,
{
    match v {
        Value::Bytes(b) => {
            push_quoted(b, out);
            proof {
                assert(out@ =~= old(out)@ + spec_render(v.deep()));
            }
        },
        Value::Integer(n) => {
            crate::encode::push_int(*n, out);
        },
        Value::List(es) => {
            let ghost ds = Value::deep_items(es@, 0);
            proof {
                lemma_deep_items(es@, 0);
            }
            out.push(91);
            let ghost base = old(out)@;
            proof {
                assert(out@ + render_items(ds, 0) =~= base + seq![91u8] + render_items(ds, 0));
            }
            let mut k: usize = 0;
            while k < es.len()
                invariant
                    0 <= k <= es@.len(),
                    out@ + render_items(ds, k as int) == base + seq![91u8] + render_items(ds, 0),
                decreases es@.len() - k,
            {
                let ghost before = out@;
                render_into(&es[k], out);
                if k + 1 < es.len() {
                    out.push(44);
                    out.push(32);
                }
                proof {
                    assert(out@ + render_items(ds, k + 1) =~= before + render_items(ds, k as int));
                }
                k += 1;
            }
            proof {
                assert(render_items(ds, es@.len() as int) =~= Seq::<u8>::empty());
                assert(out@ =~= out@ + render_items(ds, es@.len() as int));
            }
            out.push(93);
            proof {
                assert(out@ =~= base + spec_render(v.deep()));
            }
        },
        Value::Dict(ps) => {
            let ghost ds = Value::deep_pairs(ps@, 0);
            proof {
                lemma_deep_pairs(ps@, 0);
            }
            out.push(123);
            let ghost base = old(out)@;
            proof {
                assert(out@ + render_pairs(ds, 0) =~= base + seq![123u8] + render_pairs(ds, 0));
            }
            let mut k: usize = 0;
            while k < ps.len()
                invariant
                    0 <= k <= ps@.len(),
                    out@ + render_pairs(ds, k as int) == base + seq![123u8] + render_pairs(ds, 0),
                decreases ps@.len() - k,
            {
                let ghost before = out@;
                push_quoted(&ps[k].0, out);
                out.push(58);
                out.push(32);
                proof {
                    assert(decreases_to!(ps@ => ps@[k as int]));
                    assert(decreases_to!(ps@[k as int] => ps@[k as int].1));
                }
                render_into(&ps[k].1, out);
                if k + 1 < ps.len() {
                    out.push(44);
                    out.push(32);
                }
                proof {
                    assert(out@ + render_pairs(ds, k + 1) =~= before + render_pairs(ds, k as int));
                }
                k += 1;
            }
            proof {
                assert(render_pairs(ds, ps@.len() as int) =~= Seq::<u8>::empty());
                assert(out@ =~= out@ + render_pairs(ds, ps@.len() as int));
            }
            out.push(125);
            proof {
                assert(out@ =~= base + spec_render(v.deep()));
            }
        },
    }
}

/// The textual projection of a value, as bytes of ASCII text.
pub fn render(v: &Value) -> (r: Vec<u8>)
    ensures
        r@ == spec_render(v.deep()),
{
    let mut out: Vec<u8> = Vec::new();
    render_into(v, &mut out);
    proof {
        assert(Seq::<u8>::empty() + spec_render(v.deep()) =~= spec_render(v.deep()));
    }
    out
}

} // verus!
