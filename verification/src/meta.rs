//! The metainfo projection: a typed view of a decoded document (tracker
//! URL, total length, name, piece length, piece-hash blob), and the
//! segmentation of the piece blob into fixed-width digest records.

use vstd::prelude::*;

use crate::value::BencodeError;
use crate::value::MetaField;
use crate::value::SpecValue;
use crate::value::Value;
use crate::decode::bytes_eq;
use crate::value::lemma_deep_pairs;

verus! {

broadcast use vstd::std_specs::vec::group_vec_axioms;

/// The number of bytes in one piece digest record.
pub const DIGEST_LEN: usize = 20;

/// The typed projection of a metainfo document.
#[derive(Debug, Clone, PartialEq, Eq)]
pub struct Metainfo {
    /// The tracker URL, as raw bytes.
    pub announce: Vec<u8>,
    /// The total length of the described content; never negative.
    pub length: u64,
    /// The suggested name, as raw bytes.
    pub name: Vec<u8>,
    /// The length of one piece; always positive.
    pub piece_length: u64,
    /// The concatenated piece digests, as raw bytes.
    pub pieces: Vec<u8>,
}

/// The mathematical model of a `Metainfo`.
pub struct SpecMetainfo {
    pub announce: Seq<u8>,
    pub length: int,
    pub name: Seq<u8>,
    pub piece_length: int,
    pub pieces: Seq<u8>,
}

impl Metainfo {
    /// The model of this projection.
    pub open spec fn deep(self) -> SpecMetainfo {
        SpecMetainfo {
            announce: self.announce@,
            length: self.length as int,
            name: self.name@,
            piece_length: self.piece_length as int,
            pieces: self.pieces@,
        }
    }
}

/// The bytes of the dictionary key `announce`.
pub open spec fn key_announce() -> Seq<u8> {
    seq![97u8, 110, 110, 111, 117, 110, 99, 101]
}

/// The dictionary key `announce`, as a vector.
pub fn announce_key() -> (r: Vec<u8>)
    ensures
        r@ == key_announce(),
{
    let mut v: Vec<u8> = Vec::new();
    v.push(97);
    v.push(110);
    v.push(110);
    v.push(111);
    v.push(117);
    v.push(110);
    v.push(99);
    v.push(101);
    proof {
        assert(v@ =~= key_announce());
    }
    v
}

/// The bytes of the dictionary key `info`.
pub open spec fn key_info() -> Seq<u8> {
    seq![105u8, 110, 102, 111]
}

/// The dictionary key `info`, as a vector.
pub fn info_key() -> (r: Vec<u8>)
    ensures
        r@ == key_info(),
{
    let mut v: Vec<u8> = Vec::new();
    v.push(105);
    v.push(110);
    v.push(102);
    v.push(111);
    proof {
        assert(v@ =~= key_info());
    }
    v
}

/// The bytes of the dictionary key `length`.
pub open spec fn key_length() -> Seq<u8> {
    seq![108u8, 101, 110, 103, 116, 104]
}

/// The dictionary key `length`, as a vector.
pub fn length_key() -> (r: Vec<u8>)
    ensures
        r@ == key_length(),
{
    let mut v: Vec<u8> = Vec::new();
    v.push(108);
    v.push(101);
    v.push(110);
    v.push(103);
    v.push(116);
    v.push(104);
    proof {
        assert(v@ =~= key_length());
    }
    v
}

/// The bytes of the dictionary key `name`.
pub open spec fn key_name() -> Seq<u8> {
    seq![110u8, 97, 109, 101]
}

/// The dictionary key `name`, as a vector.
pub fn name_key() -> (r: Vec<u8>)
    ensures
        r@ == key_name(),
{
    let mut v: Vec<u8> = Vec::new();
    v.push(110);
    v.push(97);
    v.push(109);
    v.push(101);
    proof {
        assert(v@ =~= key_name());
    }
    v
}

/// The bytes of the dictionary key `piece length`.
pub open spec fn key_piece_length() -> Seq<u8> {
    seq![112u8, 105, 101, 99, 101, 32, 108, 101, 110, 103, 116, 104]
}

/// The dictionary key `piece length`, as a vector.
pub fn piece_length_key() -> (r: Vec<u8>)
    ensures
        r@ == key_piece_length(),
{
    let mut v: Vec<u8> = Vec::new();
    v.push(112);
    v.push(105);
    v.push(101);
    v.push(99);
    v.push(101);
    v.push(32);
    v.push(108);
    v.push(101);
    v.push(110);
    v.push(103);
    v.push(116);
    v.push(104);
    proof {
        assert(v@ =~= key_piece_length());
    }
    v
}

/// The bytes of the dictionary key `pieces`.
pub open spec fn key_pieces() -> Seq<u8> {
    seq![112u8, 105, 101, 99, 101, 115]
}

/// The dictionary key `pieces`, as a vector.
pub fn pieces_key() -> (r: Vec<u8>)
    ensures
        r@ == key_pieces(),
{
    let mut v: Vec<u8> = Vec::new();
    v.push(112);
    v.push(105);
    v.push(101);
    v.push(99);
    v.push(101);
    v.push(115);
    proof {
        assert(v@ =~= key_pieces());
    }
    v
}

/// The value under the first pair of `ps[i..]` whose key is `k`.
pub open spec fn find_key_from(ps: Seq<(Seq<u8>, SpecValue)>, k: Seq<u8>, i: int) -> Option<
    SpecValue,
>
    decreases ps.len() - i,
{
    if i < 0 || i >= ps.len() {
        None
    } else if ps[i].0 == k {
        Some(ps[i].1)
    } else {
        find_key_from(ps, k, i + 1)
    }
}

/// The value under the first pair of `ps` whose key is `k`.
pub open spec fn find_key(ps: Seq<(Seq<u8>, SpecValue)>, k: Seq<u8>) -> Option<SpecValue> {
    find_key_from(ps, k, 0)
}

/// The typed projection, specified over the value model: each required
/// field in turn, with the exact error where it is absent or has the wrong
/// variant.
pub open spec fn spec_project(v: SpecValue) -> Result<SpecMetainfo, BencodeError> {
    match v {
        SpecValue::Dict(ps) => match find_key(ps, key_announce()) {
            Some(SpecValue::Bytes(announce)) => match find_key(ps, key_info()) {
                Some(SpecValue::Dict(ips)) => match find_key(ips, key_length()) {
                    Some(SpecValue::Integer(length)) => if length < 0 {
                        Err(BencodeError::SchemaError(MetaField::Length))
                    } else {
                        match find_key(ips, key_name()) {
                            Some(SpecValue::Bytes(name)) => match find_key(
                                ips,
                                key_piece_length(),
                            ) {
                                Some(SpecValue::Integer(piece_length)) => if piece_length <= 0 {
                                    Err(BencodeError::SchemaError(MetaField::PieceLength))
                                } else {
                                    match find_key(ips, key_pieces()) {
                                        Some(SpecValue::Bytes(pieces)) => Ok(
                                            SpecMetainfo {
                                                announce,
                                                length,
                                                name,
                                                piece_length,
                                                pieces,
                                            },
                                        ),
                                        _ => Err(BencodeError::SchemaError(MetaField::Pieces)),
                                    }
                                },
                                _ => Err(BencodeError::SchemaError(MetaField::PieceLength)),
                            },
                            _ => Err(BencodeError::SchemaError(MetaField::Name)),
                        }
                    },
                    _ => Err(BencodeError::SchemaError(MetaField::Length)),
                },
                _ => Err(BencodeError::SchemaError(MetaField::Info)),
            },
            _ => Err(BencodeError::SchemaError(MetaField::Announce)),
        },
        _ => Err(BencodeError::SchemaError(MetaField::Document)),
    }
}

/// A copy of a byte vector.
fn copy_bytes(src: &Vec<u8>) -> (r: Vec<u8>)
    ensures
        r@ == src@,
{
    let mut out: Vec<u8> = Vec::new();
    let mut t: usize = 0;
    while t < src.len()
        invariant
            0 <= t <= src@.len(),
            out@ == src@.subrange(0, t as int),
        decreases src@.len() - t,
    {
        out.push(src[t]);
        proof {
            assert(out@ =~= src@.subrange(0, t + 1));
        }
        t += 1;
    }
    proof {
        assert(out@ =~= src@);
    }
    out
}

/// The first value stored under `key`, if any.
fn find_key_exec<'a>(ps: &'a Vec<(Vec<u8>, Value)>, key: &Vec<u8>) -> (r: Option<&'a Value>)
    ensures
        match r {
            Some(found) => find_key(Value::deep_pairs(ps@, 0), key@) == Some(found.deep()),
            None => find_key(Value::deep_pairs(ps@, 0), key@) is None,
        },
{
    proof {
        lemma_deep_pairs(ps@, 0);
    }
    let ghost model = Value::deep_pairs(ps@, 0);
    let mut t: usize = 0;
    while t < ps.len()
        invariant
            0 <= t <= ps@.len(),
            model == Value::deep_pairs(ps@, 0),
            model.len() == ps@.len(),
            forall|m: int| 0 <= m < model.len() ==> #[trigger] model[m] == (ps@[m].0@, ps@[m].1.deep()),
            find_key(model, key@) == find_key_from(model, key@, t as int),
        decreases ps@.len() - t,
    {
        if bytes_eq(&ps[t].0, key) {
            assert(model[t as int].0 == key@);
            return Some(&ps[t].1);
        }
        assert(model[t as int].0 != key@);
        t += 1;
    }
    None
}

/// The value stored under `key` in a dictionary value: the first matching
/// pair, or nothing where the value is no dictionary or the key is absent.
pub fn dict_get<'a>(v: &'a Value, key: &Vec<u8>) -> (r: Option<&'a Value>)
    ensures
        match r {
            Some(found) => v.deep() matches SpecValue::Dict(ps) && find_key(ps, key@) == Some(
                found.deep(),
            ),
            None => !(v.deep() matches SpecValue::Dict(ps) && find_key(ps, key@) is Some),
        },
{
    match v {
        Value::Dict(ps) => find_key_exec(ps, key),
        _ => None,
    }
}

/// Project a decoded document onto the metainfo schema. Fails with
/// `SchemaError` naming the first field, in the order announce, info,
/// length, name, piece length, pieces, that is absent or has the wrong
/// variant; a negative length and a non-positive piece length are wrong
/// values of their fields.
pub fn project(v: &Value) -> (r: Result<Metainfo, BencodeError>)
    ensures
        match r {
            Ok(m) => spec_project(v.deep()) == Ok::<SpecMetainfo, BencodeError>(m.deep()),
            Err(e) => spec_project(v.deep()) == Err::<SpecMetainfo, BencodeError>(e),
        },
{
    let ps = match v {
        Value::Dict(ps) => ps,
        _ => {
            return Err(BencodeError::SchemaError(MetaField::Document));
        },
    };
    let announce = match find_key_exec(ps, &announce_key()) {
        Some(Value::Bytes(a)) => copy_bytes(a),
        _ => {
            return Err(BencodeError::SchemaError(MetaField::Announce));
        },
    };
    let ips = match find_key_exec(ps, &info_key()) {
        Some(Value::Dict(ips)) => ips,
        _ => {
            return Err(BencodeError::SchemaError(MetaField::Info));
        },
    };
    let length = match find_key_exec(ips, &length_key()) {
        Some(Value::Integer(n)) => {
            if *n < 0 {
                return Err(BencodeError::SchemaError(MetaField::Length));
            }
            *n as u64
        },
        _ => {
            return Err(BencodeError::SchemaError(MetaField::Length));
        },
    };
    let name = match find_key_exec(ips, &name_key()) {
        Some(Value::Bytes(nm)) => copy_bytes(nm),
        _ => {
            return Err(BencodeError::SchemaError(MetaField::Name));
        },
    };
    let piece_length = match find_key_exec(ips, &piece_length_key()) {
        Some(Value::Integer(n)) => {
            if *n <= 0 {
                return Err(BencodeError::SchemaError(MetaField::PieceLength));
            }
            *n as u64
        },
        _ => {
            return Err(BencodeError::SchemaError(MetaField::PieceLength));
        },
    };
    let pieces = match find_key_exec(ips, &pieces_key()) {
        Some(Value::Bytes(pb)) => copy_bytes(pb),
        _ => {
            return Err(BencodeError::SchemaError(MetaField::Pieces));
        },
    };
    Ok(Metainfo { announce, length, name, piece_length, pieces })
}

/// Split a piece blob into consecutive 20-byte records, in order. Fails
/// with `InvalidLength` exactly when the blob is not a whole number of
/// records.
pub fn segment_pieces(blob: &Vec<u8>) -> (r: Result<Vec<Vec<u8>>, BencodeError>)
    ensures
        match r {
            Ok(rs) => blob@.len() as int % (DIGEST_LEN as int) == 0 && rs@.len() as int == blob@.len() as int / (
            DIGEST_LEN as int) && forall|i: int|
                0 <= i < rs@.len() ==> (#[trigger] rs@[i])@ == blob@.subrange(
                    (DIGEST_LEN as int) * i,
                    (DIGEST_LEN as int) * i + (DIGEST_LEN as int),
                ),
            Err(e) => e == BencodeError::InvalidLength && blob@.len() as int % (DIGEST_LEN as int) != 0,
        },
{
    let len = blob.len();
    if len % DIGEST_LEN != 0 {
        return Err(BencodeError::InvalidLength);
    }
    let count = len / DIGEST_LEN;
    proof {
        vstd::arithmetic::div_mod::lemma_fundamental_div_mod(len as int, DIGEST_LEN as int);
    }
    let mut out: Vec<Vec<u8>> = Vec::new();
    let mut i: usize = 0;
    while i < count
        invariant
            0 <= i <= count,
            len == blob@.len(),
            len as int % (DIGEST_LEN as int) == 0,
            count as int == len as int / (DIGEST_LEN as int),
            (DIGEST_LEN as int) * (count as int) == len as int,
            out@.len() == i,
            forall|m: int|
                0 <= m < i ==> (#[trigger] out@[m])@ == blob@.subrange(
                    (DIGEST_LEN as int) * m,
                    (DIGEST_LEN as int) * m + (DIGEST_LEN as int),
                ),
        decreases count - i,
    {
        let start = i * DIGEST_LEN;
        proof {
            assert((i as int) * (DIGEST_LEN as int) + (DIGEST_LEN as int) <= (count as int) * (
            DIGEST_LEN as int)) by (nonlinear_arith)
                requires
                    (i as int) < (count as int),
            ;
        }
        let mut rec: Vec<u8> = Vec::new();
        let mut t: usize = 0;
        while t < DIGEST_LEN
            invariant
                0 <= t <= DIGEST_LEN,
                len == blob@.len(),
                start == (i as int) * (DIGEST_LEN as int),
                start + DIGEST_LEN <= len,
                rec@ == blob@.subrange(start as int, start + t),
            decreases DIGEST_LEN - t,
        {
            rec.push(blob[start + t]);
            proof {
                assert(rec@ =~= blob@.subrange(start as int, start + t + 1));
            }
            t += 1;
        }
        out.push(rec);
        i += 1;
    }
    Ok(out)
}

} // verus!
