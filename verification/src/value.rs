//! The value model for Bencode documents: a tagged union of byte strings,
//! signed integers, lists and dictionaries, together with its mathematical
//! model (`SpecValue`) and the error taxonomy shared by the codec.

use vstd::prelude::*;

verus! {

broadcast use vstd::std_specs::vec::group_vec_axioms;

/// A decoded Bencode document.
///
/// Dictionaries are kept as a sequence of key/value pairs in the order in
/// which they appear; the canonical encoding sorts them by key.
#[derive(Debug, PartialEq, Eq)]
pub enum Value {
    Bytes(Vec<u8>),
    Integer(i64),
    List(Vec<Value>),
    Dict(Vec<(Vec<u8>, Value)>),
}

/// The mathematical model of a `Value`: sequences in place of vectors and
/// unbounded integers in place of `i64`.
pub enum SpecValue {
    Bytes(Seq<u8>),
    Integer(int),
    List(Seq<SpecValue>),
    Dict(Seq<(Seq<u8>, SpecValue)>),
}

impl Value {
    /// The model of this value.
    pub open spec fn deep(self) -> SpecValue
        decreases self, 0int, 0int,
    {
        match self {
            Value::Bytes(b) => SpecValue::Bytes(b@),
            Value::Integer(n) => SpecValue::Integer(n as int),
            Value::List(es) => SpecValue::List(Self::deep_items(es@, 0)),
            Value::Dict(ps) => SpecValue::Dict(Self::deep_pairs(ps@, 0)),
        }
    }

    /// Models of the elements `es[k..]`.
    pub open spec fn deep_items(es: Seq<Value>, k: int) -> Seq<SpecValue>
        decreases es, 1int, es.len() - k,
    {
        if k < 0 || k >= es.len() {
            Seq::empty()
        } else {
            seq![es[k].deep()] + Self::deep_items(es, k + 1)
        }
    }

    /// Models of the pairs `ps[k..]`.
    pub open spec fn deep_pairs(ps: Seq<(Vec<u8>, Value)>, k: int) -> Seq<(Seq<u8>, SpecValue)>
        decreases ps, 1int, ps.len() - k,
    {
        if k < 0 || k >= ps.len() {
            Seq::empty()
        } else {
            seq![(ps[k].0@, ps[k].1.deep())] + Self::deep_pairs(ps, k + 1)
        }
    }
}

/// The length and the elements of `Value::deep_items(es, k)`.
pub proof fn lemma_deep_items(es: Seq<Value>, k: int)
    requires
        0 <= k <= es.len(),
    ensures
        Value::deep_items(es, k).len() == es.len() - k,
        forall|i: int|
            k <= i < es.len() ==> Value::deep_items(es, k)[i - k] == (#[trigger] es[i]).deep(),
    decreases es.len() - k,
{
    if k < es.len() {
        lemma_deep_items(es, k + 1);
    }
}

/// The length and the elements of `Value::deep_pairs(ps, k)`.
pub proof fn lemma_deep_pairs(ps: Seq<(Vec<u8>, Value)>, k: int)
    requires
        0 <= k <= ps.len(),
    ensures
        Value::deep_pairs(ps, k).len() == ps.len() - k,
        forall|i: int|
            k <= i < ps.len() ==> Value::deep_pairs(ps, k)[i - k] == ((#[trigger] ps[i]).0@,
            ps[i].1.deep()),
    decreases ps.len() - k,
{
    if k < ps.len() {
        lemma_deep_pairs(ps, k + 1);
    }
}

/// Appending one element on the right appends its model on the right.
pub proof fn lemma_deep_items_push(es: Seq<Value>, v: Value)
    ensures
        Value::deep_items(es.push(v), 0) == Value::deep_items(es, 0).push(v.deep()),
{
    lemma_deep_items(es, 0);
    lemma_deep_items(es.push(v), 0);
    let a = Value::deep_items(es.push(v), 0);
    let b = Value::deep_items(es, 0).push(v.deep());
    assert forall|i: int| 0 <= i < a.len() implies a[i] == b[i] by {
        assert(a[i] == es.push(v)[i].deep());
        if i < es.len() {
            assert(es.push(v)[i] == es[i]);
        } else {
            assert(es.push(v)[i] == v);
        }
    }
    assert(a =~= b);
}

/// Appending one pair on the right appends its model on the right.
pub proof fn lemma_deep_pairs_push(ps: Seq<(Vec<u8>, Value)>, k: Vec<u8>, v: Value)
    ensures
        Value::deep_pairs(ps.push((k, v)), 0) == Value::deep_pairs(ps, 0).push((k@, v.deep())),
{
    lemma_deep_pairs(ps, 0);
    lemma_deep_pairs(ps.push((k, v)), 0);
    let a = Value::deep_pairs(ps.push((k, v)), 0);
    let b = Value::deep_pairs(ps, 0).push((k@, v.deep()));
    assert forall|i: int| 0 <= i < a.len() implies a[i] == b[i] by {
        assert(a[i] == (ps.push((k, v))[i].0@, ps.push((k, v))[i].1.deep()));
        if i < ps.len() {
            assert(ps.push((k, v))[i] == ps[i]);
        } else {
            assert(ps.push((k, v))[i] == (k, v));
        }
    }
    assert(a =~= b);
}

/// Byte-lexicographic strict order on keys: `a` comes before `b`.
pub open spec fn lex_lt(a: Seq<u8>, b: Seq<u8>) -> bool
    decreases a.len(),
{
    if b.len() == 0 {
        false
    } else if a.len() == 0 {
        true
    } else if a[0] < b[0] {
        true
    } else if a[0] > b[0] {
        false
    } else {
        lex_lt(a.drop_first(), b.drop_first())
    }
}

impl SpecValue {
    /// Keys of a dictionary's pair sequence are strictly increasing.
    pub open spec fn keys_sorted(ps: Seq<(Seq<u8>, SpecValue)>) -> bool {
        forall|i: int, j: int| 0 <= i < j < ps.len() ==> lex_lt(#[trigger] ps[i].0, #[trigger] ps[j].0)
    }

    /// A well-formed value: integers fit in `i64`, and every dictionary,
    /// at every depth, has strictly increasing (hence unique) keys.
    pub open spec fn wf(self) -> bool
        decreases self,
    {
        match self {
            SpecValue::Bytes(_) => true,
            SpecValue::Integer(n) => i64::MIN <= n <= i64::MAX,
            SpecValue::List(es) => forall|i: int| 0 <= i < es.len() ==> (#[trigger] es[i]).wf(),
            SpecValue::Dict(ps) => Self::keys_sorted(ps) && forall|i: int|
                0 <= i < ps.len() ==> (#[trigger] ps[i]).1.wf(),
        }
    }

    /// Nesting depth: how many containers enclose the deepest leaf.
    pub open spec fn depth(self) -> nat
        decreases self,
    {
        match self {
            SpecValue::Bytes(_) => 0,
            SpecValue::Integer(_) => 0,
            SpecValue::List(es) => 1 + Self::items_depth(es, 0),
            SpecValue::Dict(ps) => 1 + Self::pairs_depth(ps, 0),
        }
    }

    /// Largest depth among `es[k..]`.
    pub open spec fn items_depth(es: Seq<SpecValue>, k: int) -> nat
        decreases es, es.len() - k,
    {
        if k < 0 || k >= es.len() {
            0
        } else {
            let d = es[k].depth();
            let r = Self::items_depth(es, k + 1);
            if d > r {
                d
            } else {
                r
            }
        }
    }

    /// Largest value depth among `ps[k..]`.
    pub open spec fn pairs_depth(ps: Seq<(Seq<u8>, SpecValue)>, k: int) -> nat
        decreases ps, ps.len() - k,
    {
        if k < 0 || k >= ps.len() {
            0
        } else {
            let d = ps[k].1.depth();
            let r = Self::pairs_depth(ps, k + 1);
            if d > r {
                d
            } else {
                r
            }
        }
    }
}

/// A field of the metainfo schema, used to report which part of a document
/// failed projection.
#[derive(Clone, Copy, Debug, PartialEq, Eq, Structural)]
pub enum MetaField {
    /// The whole document, where it is not a dictionary at all.
    Document,
    Announce,
    Info,
    Length,
    Name,
    PieceLength,
    Pieces,
}

/// Everything that can go wrong while decoding, projecting or segmenting.
#[derive(Clone, Copy, Debug, PartialEq, Eq, Structural)]
pub enum BencodeError {
    /// The byte at the current position starts no value, or the buffer ended
    /// where a value was expected.
    InvalidTag,
    /// The buffer ended before the announced extent of a value.
    TruncatedInput,
    /// An integer or length literal breaks the grammar (leading zero, `-0`,
    /// empty digit run, or a stray byte).
    MalformedInteger,
    /// An integer literal does not fit in a signed 64-bit value.
    IntegerOverflow,
    /// A dictionary key is not a byte string.
    InvalidKeyType,
    /// A dictionary key occurs twice.
    DuplicateKey,
    /// Containers nest deeper than the configured limit.
    RecursionLimitExceeded,
    /// A required metainfo field is absent or has the wrong variant.
    SchemaError(MetaField),
    /// A piece blob whose length is not a multiple of the digest size.
    InvalidLength,
}

} // verus!
