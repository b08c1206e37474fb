use memento::codec::{blank, decode, decode_header, decode_point, encode, encode_header, encode_point};
use memento::errors::{Error, ParseError, ValidationError};
use memento::file::open;
use memento::types::{
    AggregationType, Archive, ArchiveInfo, Data, Header, MementoDatabase, Metadata, Point,
};

fn small_header() -> Header {
    Header::new(
        Metadata::new(AggregationType::Max, 300, 0.5f32.to_bits(), 2),
        vec![ArchiveInfo::new(40, 10, 2), ArchiveInfo::new(64, 100, 3)],
    )
}

fn small_database() -> MementoDatabase {
    let fine = Archive::new(vec![
        Point::new(1501355040, 45.9f64.to_bits()),
        Point::new(1501355050, 30.8f64.to_bits()),
    ]);
    let coarse = Archive::new(vec![
        Point::new(1501355000, 46.0f64.to_bits()),
        Point::new(0, 0),
        Point::new(1501354900, (-35.3f64).to_bits()),
    ]);
    MementoDatabase::new(small_header(), Data::new(vec![fine, coarse]))
}

fn small_header_bytes() -> Vec<u8> {
    vec![
        0, 0, 0, 4, // Max
        0, 0, 1, 44, // 300
        0x3f, 0, 0, 0, // 0.5
        0, 0, 0, 2, // two archives
        0, 0, 0, 40, 0, 0, 0, 10, 0, 0, 0, 2, //
        0, 0, 0, 64, 0, 0, 0, 100, 0, 0, 0, 3,
    ]
}

#[test]
fn header_bytes_are_big_endian() {
    assert_eq!(small_header_bytes(), encode_header(&small_header()));
}

#[test]
fn point_bytes_are_big_endian() {
    let mut out = vec![7u8];
    encode_point(&mut out, &Point::new(0x01020304, 1.0f64.to_bits()));
    assert_eq!(vec![7, 1, 2, 3, 4, 0x3f, 0xf0, 0, 0, 0, 0, 0, 0], out);
}

#[test]
fn decode_point_reads_big_endian() {
    let bytes = [9u8, 1, 2, 3, 4, 0xc0, 0x08, 0, 0, 0, 0, 0, 1];
    assert_eq!(Some(Point::new(0x01020304, 0xc008000000000001)), decode_point(&bytes, 1));
    assert_eq!(None, decode_point(&bytes, 2));
    assert_eq!(None, decode_point(&bytes, 14));
    assert_eq!(None, decode_point(&bytes, usize::MAX));
}

#[test]
fn encode_is_as_long_as_the_header_says() {
    let db = small_database();
    let bytes = encode(&db);
    assert_eq!(100, bytes.len());
    assert_eq!(db.header().file_size(), bytes.len() as u64);
    assert_eq!(&small_header_bytes()[..], &bytes[..40]);
    assert_eq!(&1501355040u32.to_be_bytes()[..], &bytes[40..44]);
    assert_eq!(&45.9f64.to_be_bytes()[..], &bytes[44..52]);
}

#[test]
fn decode_inverts_encode() {
    let db = small_database();
    assert_eq!(Ok(db.clone()), decode(&encode(&db)));
}

#[test]
fn decode_keeps_every_bit_of_a_value() {
    let odd = [f64::NAN.to_bits(), (-0.0f64).to_bits(), 0x7ff0000000000001, u64::MAX, 1];
    for bits in odd {
        let db = MementoDatabase::new(
            Header::new(
                Metadata::new(AggregationType::Last, 10, 0, 1),
                vec![ArchiveInfo::new(28, 10, 1)],
            ),
            Data::new(vec![Archive::new(vec![Point::new(77, bits)])]),
        );
        let back = decode(&encode(&db)).unwrap();
        assert_eq!(bits, back.data().archives()[0].points()[0].value());
    }
}

#[test]
fn decode_header_inverts_encode_header() {
    assert_eq!(Ok(small_header()), decode_header(&small_header_bytes()));
}

#[test]
fn decode_header_does_not_need_the_data() {
    let bytes = encode(&small_database());
    assert_eq!(Ok(small_header()), decode_header(&bytes[..40]));
    assert_eq!(Err(ParseError::TruncatedInput), decode(&bytes[..40]));
}

#[test]
fn decode_ignores_what_follows_the_file() {
    let db = small_database();
    let mut bytes = encode(&db);
    bytes.extend_from_slice(&[1, 2, 3]);
    assert_eq!(Ok(db), decode(&bytes));
}

#[test]
fn truncated_input_is_refused_at_every_length() {
    let bytes = encode(&small_database());
    for len in 0..bytes.len() {
        assert_eq!(Err(ParseError::TruncatedInput), decode(&bytes[..len]), "length {}", len);
    }
    for len in 0..40 {
        assert_eq!(Err(ParseError::TruncatedInput), decode_header(&bytes[..len]));
    }
}

#[test]
fn unknown_aggregation_is_refused_with_its_code() {
    let mut bytes = encode(&small_database());
    bytes[3] = 9;
    assert_eq!(Err(ParseError::InvalidAggregation(9)), decode(&bytes));
    bytes[3] = 0;
    assert_eq!(Err(ParseError::InvalidAggregation(0)), decode(&bytes));
    bytes[0] = 0x80;
    bytes[3] = 1;
    assert_eq!(Err(ParseError::InvalidAggregation(0x80000001)), decode_header(&bytes));
}

#[test]
fn aggregation_is_tested_before_the_rest_is_read() {
    assert_eq!(Err(ParseError::InvalidAggregation(9)), decode(&[0, 0, 0, 9]));
    assert_eq!(Err(ParseError::TruncatedInput), decode(&[0, 0, 0, 8]));
    assert_eq!(Err(ParseError::TruncatedInput), decode(&[0, 0, 0]));
}

#[test]
fn every_aggregation_code_decodes() {
    for code in 1..=8u8 {
        let mut bytes = encode(&small_database());
        bytes[3] = code;
        let db = decode(&bytes).unwrap();
        assert_eq!(code as u32, db.header().metadata().aggregation().code());
    }
}

#[test]
fn offsets_off_the_chain_are_refused() {
    let mut bytes = encode(&small_database());
    bytes[19] = 41;
    assert_eq!(Err(ParseError::InconsistentLayout), decode(&bytes));
    let mut bytes = encode(&small_database());
    bytes[31] = 63;
    assert_eq!(Err(ParseError::InconsistentLayout), decode(&bytes));
    assert_eq!(Err(ParseError::InconsistentLayout), decode_header(&bytes));
}

#[test]
fn a_missing_descriptor_is_truncation_not_layout() {
    let mut bytes = small_header_bytes();
    bytes[19] = 41;
    assert_eq!(Err(ParseError::TruncatedInput), decode_header(&bytes[..39]));
    assert_eq!(Err(ParseError::InconsistentLayout), decode_header(&bytes));
}

#[test]
fn a_file_without_archives_decodes() {
    let db = MementoDatabase::new(
        Header::new(Metadata::new(AggregationType::Sum, 0, 0, 0), vec![]),
        Data::new(vec![]),
    );
    let bytes = encode(&db);
    assert_eq!(16, bytes.len());
    assert_eq!(Ok(db), decode(&bytes));
}

#[test]
fn blank_is_the_header_and_zeros() {
    let bytes = blank(&small_header());
    assert_eq!(100, bytes.len());
    assert_eq!(&small_header_bytes()[..], &bytes[..40]);
    assert!(bytes[40..].iter().all(|b| *b == 0));
}

#[test]
fn blank_decodes_to_zero_points() {
    let db = decode(&blank(&small_header())).unwrap();
    assert_eq!(&small_header(), db.header());
    assert_eq!(2, db.data().archives().len());
    assert_eq!(&vec![Point::new(0, 0); 2][..], db.data().archives()[0].points());
    assert_eq!(&vec![Point::new(0, 0); 3][..], db.data().archives()[1].points());
}

#[test]
fn encode_inverts_decode() {
    let mut bytes: Vec<u8> = small_header_bytes();
    for i in 0..60u8 {
        bytes.push(i.wrapping_mul(37).wrapping_add(11));
    }
    let db = decode(&bytes).unwrap();
    assert_eq!(bytes, encode(&db));
    bytes.extend_from_slice(&[5, 6, 7]);
    let db = decode(&bytes).unwrap();
    assert_eq!(&bytes[..100], &encode(&db)[..]);
}

#[test]
fn open_gives_the_header_of_a_sound_file() {
    let bytes = encode(&small_database());
    assert_eq!(Ok(small_header()), open(&bytes));
}

#[test]
fn open_refuses_what_does_not_decode() {
    let bytes = encode(&small_database());
    assert_eq!(Err(Error::Parse(ParseError::TruncatedInput)), open(&bytes[..99]));
    assert_eq!(Err(Error::Parse(ParseError::TruncatedInput)), open(&bytes[..39]));
    assert_eq!(Err(Error::Parse(ParseError::TruncatedInput)), open(&[]));
    let mut broken = bytes.clone();
    broken[3] = 0;
    assert_eq!(Err(Error::Parse(ParseError::InvalidAggregation(0))), open(&broken));
    let mut broken = bytes.clone();
    broken[19] = 44;
    assert_eq!(Err(Error::Parse(ParseError::InconsistentLayout)), open(&broken));
}

#[test]
fn open_refuses_a_header_that_is_not_valid() {
    let mut bytes = encode(&small_database());
    bytes[7] = 45;
    assert_eq!(Err(Error::Validation(ValidationError::MaxRetentionMismatch)), open(&bytes));
    let mut bytes = encode(&small_database());
    bytes[8] = 0x40;
    assert_eq!(Err(Error::Validation(ValidationError::InvalidXFilesFactor)), open(&bytes));
    let mut bytes = encode(&small_database());
    bytes[35] = 15;
    assert_eq!(Err(Error::Validation(ValidationError::NonDivisibleStep)), open(&bytes));
    assert_eq!(Err(Error::Parse(ParseError::TruncatedInput)), open(&bytes[..99]));
    let empty = [0u8, 0, 0, 1, 0, 0, 0, 0, 0, 0, 0, 0, 0, 0, 0, 0];
    assert_eq!(Err(Error::Validation(ValidationError::EmptyArchiveList)), open(&empty));
}
