use bencode::decode::decode;
use bencode::digest::info_digest;
use bencode::digest::info_digest_hex;
use bencode::digest::to_hex;
use bencode::meta::dict_get;
use bencode::meta::info_key;
use bencode::meta::project;
use bencode::meta::segment_pieces;
use bencode::text::safe_char_at;
use bencode::value::BencodeError;
use bencode::value::MetaField;
use bencode::value::Value;

fn bytes(s: &[u8]) -> Value {
    Value::Bytes(s.to_vec())
}

fn pair(k: &[u8], v: Value) -> (Vec<u8>, Value) {
    (k.to_vec(), v)
}

fn sample_info(piece_count: usize) -> Value {
    let mut pieces = Vec::new();
    for i in 0..piece_count * 20 {
        pieces.push((i % 251) as u8);
    }
    Value::Dict(vec![
        pair(b"length", Value::Integer(1048576)),
        pair(b"name", bytes(b"sample.bin")),
        pair(b"piece length", Value::Integer(262144)),
        pair(b"pieces", Value::Bytes(pieces)),
    ])
}

fn sample_doc(piece_count: usize) -> Value {
    Value::Dict(vec![
        pair(b"announce", bytes(b"http://tracker.example/announce")),
        pair(b"info", sample_info(piece_count)),
    ])
}

#[test]
fn project_reads_all_fields() {
    let m = project(&sample_doc(2)).unwrap();
    assert_eq!(m.announce, b"http://tracker.example/announce".to_vec());
    assert_eq!(m.length, 1048576);
    assert_eq!(m.name, b"sample.bin".to_vec());
    assert_eq!(m.piece_length, 262144);
    assert_eq!(m.pieces.len(), 40);
}

#[test]
fn project_rejects_non_dictionary() {
    assert_eq!(
        project(&Value::Integer(3)),
        Err(BencodeError::SchemaError(MetaField::Document))
    );
}

#[test]
fn project_rejects_missing_announce() {
    let doc = Value::Dict(vec![pair(b"info", sample_info(1))]);
    assert_eq!(
        project(&doc),
        Err(BencodeError::SchemaError(MetaField::Announce))
    );
}

#[test]
fn project_rejects_wrong_variant_announce() {
    let doc = Value::Dict(vec![
        pair(b"announce", Value::Integer(1)),
        pair(b"info", sample_info(1)),
    ]);
    assert_eq!(
        project(&doc),
        Err(BencodeError::SchemaError(MetaField::Announce))
    );
}

#[test]
fn project_rejects_missing_info() {
    let doc = Value::Dict(vec![pair(b"announce", bytes(b"u"))]);
    assert_eq!(project(&doc), Err(BencodeError::SchemaError(MetaField::Info)));
}

#[test]
fn project_rejects_negative_length() {
    let doc = Value::Dict(vec![
        pair(b"announce", bytes(b"u")),
        pair(
            b"info",
            Value::Dict(vec![
                pair(b"length", Value::Integer(-1)),
                pair(b"name", bytes(b"n")),
                pair(b"piece length", Value::Integer(1)),
                pair(b"pieces", bytes(b"")),
            ]),
        ),
    ]);
    assert_eq!(
        project(&doc),
        Err(BencodeError::SchemaError(MetaField::Length))
    );
}

#[test]
fn project_rejects_string_length() {
    let doc = Value::Dict(vec![
        pair(b"announce", bytes(b"u")),
        pair(
            b"info",
            Value::Dict(vec![
                pair(b"length", bytes(b"12")),
                pair(b"name", bytes(b"n")),
                pair(b"piece length", Value::Integer(1)),
                pair(b"pieces", bytes(b"")),
            ]),
        ),
    ]);
    assert_eq!(
        project(&doc),
        Err(BencodeError::SchemaError(MetaField::Length))
    );
}

#[test]
fn project_rejects_zero_piece_length() {
    let doc = Value::Dict(vec![
        pair(b"announce", bytes(b"u")),
        pair(
            b"info",
            Value::Dict(vec![
                pair(b"length", Value::Integer(5)),
                pair(b"name", bytes(b"n")),
                pair(b"piece length", Value::Integer(0)),
                pair(b"pieces", bytes(b"")),
            ]),
        ),
    ]);
    assert_eq!(
        project(&doc),
        Err(BencodeError::SchemaError(MetaField::PieceLength))
    );
}

#[test]
fn project_rejects_missing_name() {
    let doc = Value::Dict(vec![
        pair(b"announce", bytes(b"u")),
        pair(
            b"info",
            Value::Dict(vec![
                pair(b"length", Value::Integer(5)),
                pair(b"piece length", Value::Integer(1)),
                pair(b"pieces", bytes(b"")),
            ]),
        ),
    ]);
    assert_eq!(project(&doc), Err(BencodeError::SchemaError(MetaField::Name)));
}

#[test]
fn project_rejects_missing_pieces() {
    let doc = Value::Dict(vec![
        pair(b"announce", bytes(b"u")),
        pair(
            b"info",
            Value::Dict(vec![
                pair(b"length", Value::Integer(5)),
                pair(b"name", bytes(b"n")),
                pair(b"piece length", Value::Integer(1)),
            ]),
        ),
    ]);
    assert_eq!(
        project(&doc),
        Err(BencodeError::SchemaError(MetaField::Pieces))
    );
}

#[test]
fn segment_rejects_ragged_blob() {
    let blob = vec![7u8; 41];
    assert_eq!(segment_pieces(&blob), Err(BencodeError::InvalidLength));
}

#[test]
fn segment_splits_whole_blob() {
    let blob: Vec<u8> = (0..40u8).collect();
    let records = segment_pieces(&blob).unwrap();
    assert_eq!(records.len(), 2);
    assert_eq!(records[0], (0..20u8).collect::<Vec<u8>>());
    assert_eq!(records[1], (20..40u8).collect::<Vec<u8>>());
}

#[test]
fn segment_accepts_empty_blob() {
    assert_eq!(segment_pieces(&Vec::new()).unwrap().len(), 0);
}

#[test]
fn info_digest_matches_known_vector() {
    // the canonical encoding of the value is `4:spam`
    let v = bytes(b"spam");
    assert_eq!(
        info_digest_hex(&v),
        b"97276df3fe95d101e82c29335821265902a40f90".to_vec()
    );
}

#[test]
fn info_digest_canonicalises_before_hashing() {
    // stored key order differs, digest does not
    let a = Value::Dict(vec![
        pair(b"cow", bytes(b"moo")),
        pair(b"spam", bytes(b"eggs")),
    ]);
    let b = Value::Dict(vec![
        pair(b"spam", bytes(b"eggs")),
        pair(b"cow", bytes(b"moo")),
    ]);
    assert_eq!(info_digest(&a), info_digest(&b));
    // the canonical encoding is `d3:cow3:moo4:spam4:eggse`
    assert_eq!(
        info_digest_hex(&a),
        b"d2c751227762e1a96a62baa71868456a3260f3db".to_vec()
    );
}

#[test]
fn info_digest_is_deterministic_and_sensitive() {
    let v = sample_info(2);
    let first = info_digest(&v);
    let second = info_digest(&v);
    assert_eq!(first, second);
    assert_eq!(first.len(), 20);

    let mut changed = sample_info(2);
    if let Value::Dict(ref mut ps) = changed {
        ps[0].1 = Value::Integer(1048577);
    }
    assert_ne!(info_digest(&changed), first);
}

#[test]
fn hex_renders_lowercase_pairs() {
    assert_eq!(to_hex(&vec![0x00, 0xff, 0x1a]), b"00ff1a".to_vec());
    assert_eq!(to_hex(&Vec::new()), Vec::<u8>::new());
}

#[test]
fn dict_get_finds_info() {
    let doc = sample_doc(1);
    let info = dict_get(&doc, &info_key()).unwrap();
    assert_eq!(*info, sample_info(1));
    assert!(dict_get(&Value::Integer(1), &info_key()).is_none());
}

#[test]
fn whole_pipeline_from_bytes() {
    let doc_bytes = encode_doc();
    let (v, used) = decode(&doc_bytes).unwrap();
    assert_eq!(used, doc_bytes.len());
    let m = project(&v).unwrap();
    let records = segment_pieces(&m.pieces).unwrap();
    assert_eq!(records.len(), 2);
    let hex = info_digest_hex(dict_get(&v, &info_key()).unwrap());
    assert_eq!(hex.len(), 40);
}

fn encode_doc() -> Vec<u8> {
    bencode::encode::encode(&sample_doc(2))
}

#[test]
fn safe_char_at_reads_by_character() {
    assert_eq!(safe_char_at("abc", 1), 'b');
    assert_eq!(safe_char_at("héllo", 1), 'é');
}
