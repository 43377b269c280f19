use cat_trim::asn1::{next_tlv, AsnError};
use cat_trim::catalog::{parse_cat, CatError, CatRecord};
use cat_trim::digest::Digest;
use cat_trim::path::FilePath;

const MEMBER2_OID: &[u8] = &[0x2B, 0x06, 0x01, 0x04, 0x01, 0x82, 0x37, 0x0C, 0x01, 0x03];
const SHA1_OID: &[u8] = &[0x2B, 0x0E, 0x03, 0x02, 0x1A];
const SHA256_OID: &[u8] = &[0x60, 0x86, 0x48, 0x01, 0x65, 0x03, 0x04, 0x02, 0x01];

fn tlv(tag: u8, content: &[u8]) -> Vec<u8> {
    let mut result = vec![tag, content.len() as u8];
    result.extend_from_slice(content);
    result
}

fn path(name: &str) -> FilePath {
    FilePath { parts: vec![name.as_bytes().to_vec()] }
}

fn members(data: &[u8]) -> Result<CatRecord, CatError> {
    parse_cat(&path("some.cat"), data)
}

fn joined(parts: &[Vec<u8>]) -> Vec<u8> {
    parts.concat()
}

#[test]
fn extracts_members_and_filters_invalid_digest() {
    let sha1 = [1u8; 20];
    let sha256 = [2u8; 32];
    let zero = [0u8; 20];
    let mut value = Vec::new();
    value.extend(tlv(0x06, MEMBER2_OID));
    let mut members = Vec::new();
    members.extend(tlv(0x04, &sha1));
    members.extend(tlv(0x04, &sha1));
    members.extend(tlv(0x04, &sha256));
    members.extend(tlv(0x04, &zero));
    value.extend(tlv(0x30, &members));
    let data = tlv(0x30, &value);
    let record = parse_cat(&path("cat_trim_test.cat"), &data).unwrap();
    assert_eq!(record.members.len(), 2);
    assert!(record.members.contains(&Digest::Sha1(sha1)));
    assert!(record.members.contains(&Digest::Sha256(sha256)));
}

#[test]
fn structurally_valid_legacy_cat_without_digest_info_has_empty_members() {
    let data = tlv(0x30, &tlv(0x06, &[0x2B, 0x06, 0x01]));
    let record = parse_cat(&path("cat_trim_legacy.cat"), &data).unwrap();
    assert!(record.members.is_empty());
}

#[test]
fn extracts_legacy_digest_info_and_ignores_utf16_wrapper() {
    let sha1 = [
        0x05, 0x07, 0xC7, 0x26, 0x42, 0x81, 0xEF, 0xB3, 0x62, 0x93, 0x1D, 0xEB, 0x09, 0x33, 0x08,
        0xA5, 0xCC, 0x0F, 0x23, 0xA5,
    ];
    let mut wrapped = Vec::new();
    for byte in &sha1 {
        for hex in format!("{byte:02X}").into_bytes() {
            wrapped.extend_from_slice(&[hex, 0]);
        }
    }
    wrapped.extend_from_slice(&[0, 0]);
    assert_eq!(wrapped.len(), 82);

    let mut algorithm = Vec::new();
    algorithm.extend(tlv(0x06, SHA1_OID));
    algorithm.extend_from_slice(&[0x05, 0x00]);
    let mut digest_info = Vec::new();
    digest_info.extend(tlv(0x30, &algorithm));
    digest_info.extend(tlv(0x04, &sha1));
    let mut member = Vec::new();
    member.extend(tlv(0x04, &wrapped));
    member.extend(tlv(0x30, &digest_info));
    let data = tlv(0x30, &tlv(0x30, &member));

    let record = parse_cat(&path("cat_trim_legacy_digestinfo.cat"), &data).unwrap();
    assert_eq!(record.members.len(), 1);
    assert!(record.members.contains(&Digest::Sha1(sha1)));
}

#[test]
fn a_record_keeps_its_path() {
    let data = tlv(0x30, &[]);
    let record = parse_cat(&path("kept.cat"), &data).unwrap();
    assert_eq!(record.path.parts, vec![b"kept.cat".to_vec()]);
    assert!(record.members.is_empty());
}

#[test]
fn members_may_be_anywhere_behind_the_identifier() {
    let deep = tlv(0x30, &tlv(0x31, &tlv(0x04, &[7u8; 20])));
    let listed = joined(&[
        tlv(0x30, &tlv(0x06, MEMBER2_OID)),
        tlv(0x02, &[1]),
        tlv(0xA0, &deep),
    ]);
    let record = members(&tlv(0x30, &tlv(0x30, &listed))).unwrap();
    assert_eq!(record.members.len(), 1);
    assert!(record.members.contains(&Digest::Sha1([7; 20])));
}

#[test]
fn octets_before_the_identifier_are_no_members() {
    let listed = joined(&[tlv(0x30, &tlv(0x04, &[7u8; 20])), tlv(0x06, MEMBER2_OID)]);
    assert!(members(&tlv(0x30, &listed)).unwrap().members.is_empty());
    let bare = joined(&[tlv(0x06, MEMBER2_OID), tlv(0x04, &[7u8; 20])]);
    assert!(members(&tlv(0x30, &bare)).unwrap().members.is_empty());
}

#[test]
fn a_digest_may_follow_its_bare_algorithm() {
    let triple = joined(&[tlv(0x06, SHA256_OID), tlv(0x05, &[]), tlv(0x04, &[9u8; 32])]);
    let record = members(&tlv(0x30, &tlv(0x30, &triple))).unwrap();
    assert_eq!(record.members.len(), 1);
    assert!(record.members.contains(&Digest::Sha256([9; 32])));
    let without_null = joined(&[tlv(0x06, SHA256_OID), tlv(0x04, &[9u8; 32])]);
    assert!(members(&tlv(0x30, &without_null)).unwrap().members.is_empty());
    let full_null = joined(&[tlv(0x06, SHA256_OID), tlv(0x05, &[0]), tlv(0x04, &[9u8; 32])]);
    assert!(members(&tlv(0x30, &full_null)).unwrap().members.is_empty());
}

#[test]
fn a_broken_algorithm_labels_nothing() {
    let algorithm = tlv(0x30, &joined(&[tlv(0x06, SHA1_OID), vec![0x05]]));
    let labelled = joined(&[algorithm, tlv(0x04, &[9u8; 20])]);
    assert!(matches!(
        members(&tlv(0x30, &labelled)),
        Err(CatError::Asn(AsnError::TruncatedHeader))
    ));
    let octets = joined(&[tlv(0x06, SHA1_OID), vec![0x05]]);
    let primitive = joined(&[tlv(0x10, &octets), tlv(0x04, &[9u8; 20])]);
    assert!(members(&tlv(0x30, &primitive)).unwrap().members.is_empty());
}

#[test]
fn what_is_no_sequence_is_refused() {
    assert!(matches!(members(&[]), Err(CatError::NotASequence)));
    assert!(matches!(members(&[0x31, 0x00]), Err(CatError::NotASequence)));
    assert_eq!(
        CatError::NotASequence.message(),
        "CAT does not start with ASN.1 SEQUENCE"
    );
}

#[test]
fn what_follows_the_sequence_is_refused() {
    assert!(matches!(
        members(&[0x30, 0x00, 0x00]),
        Err(CatError::InvalidOuter)
    ));
    assert_eq!(
        CatError::InvalidOuter.message(),
        "CAT outer ASN.1 structure is invalid"
    );
}

#[test]
fn broken_values_are_refused() {
    let cases: Vec<(Vec<u8>, AsnError, &str)> = vec![
        (vec![0x30], AsnError::TruncatedHeader, "truncated ASN.1 TLV header"),
        (
            vec![0x30, 0x80],
            AsnError::IndefiniteLength,
            "indefinite ASN.1 lengths are not supported",
        ),
        (vec![0x30, 0x82, 0x01], AsnError::InvalidLength, "invalid ASN.1 length"),
        (
            vec![0x30, 0x89, 0, 0, 0, 0, 0, 0, 0, 0, 0],
            AsnError::InvalidLength,
            "invalid ASN.1 length",
        ),
        (
            vec![0x30, 0x88, 0xFF, 0xFF, 0xFF, 0xFF, 0xFF, 0xFF, 0xFF, 0xFF],
            AsnError::ContentOverflow,
            "ASN.1 content overflow",
        ),
        (
            vec![0x30, 0x02, 0x00],
            AsnError::ContentExceeds,
            "ASN.1 content exceeds enclosing value",
        ),
    ];
    for (data, expected, text) in cases {
        match members(&data) {
            Err(CatError::Asn(error)) => {
                assert_eq!(error, expected);
                assert_eq!(CatError::Asn(error).message(), text);
            }
            other => panic!("{other:?}"),
        }
    }
    let inner = tlv(0x30, &[0x30, 0x05]);
    assert!(matches!(
        members(&inner),
        Err(CatError::Asn(AsnError::ContentExceeds))
    ));
}

#[test]
fn long_lengths_are_read() {
    let octets = tlv(0x04, &[3u8; 20]);
    let padded = joined(&[tlv(0x06, MEMBER2_OID), tlv(0x30, &octets), tlv(0x04, &[0u8; 200][..100])]);
    let mut data = vec![0x30, 0x82, 0x00, padded.len() as u8];
    data.extend(&padded);
    let record = members(&data).unwrap();
    assert_eq!(record.members.len(), 1);
    assert!(record.members.contains(&Digest::Sha1([3; 20])));
}

#[test]
fn a_value_is_read_and_passed() {
    let mut offset = 1usize;
    let value = next_tlv(&[0xFF, 0x24, 0x01, 0x07, 0x05], &mut offset, 4).unwrap().unwrap();
    assert_eq!((value.tag, value.content, value.constructed), (0x24, [7u8].as_slice(), true));
    assert_eq!(offset, 4);
    assert!(next_tlv(&[0xFF, 0x24, 0x01, 0x07, 0x05], &mut offset, 4).unwrap().is_none());
    assert_eq!(offset, 4);
}

#[test]
fn what_was_read_of_a_broken_value_is_passed() {
    let cases: Vec<(Vec<u8>, usize, AsnError, usize)> = vec![
        (vec![0x04, 0x03, 0x01, 0x02, 0x03], 4, AsnError::ContentExceeds, 2),
        (vec![0x04], 1, AsnError::TruncatedHeader, 0),
        (vec![0x04, 0x80, 0x00, 0x00], 4, AsnError::IndefiniteLength, 2),
        (vec![0x04, 0x82, 0x01], 3, AsnError::InvalidLength, 2),
        (vec![0x04, 0x89, 0, 0, 0, 0, 0, 0, 0, 0, 0], 11, AsnError::InvalidLength, 2),
        (vec![0x04, 0x82, 0x00, 0x09, 0x01], 5, AsnError::ContentExceeds, 4),
        (
            vec![0x04, 0x88, 0xFF, 0xFF, 0xFF, 0xFF, 0xFF, 0xFF, 0xFF, 0xFF],
            10,
            AsnError::ContentOverflow,
            10,
        ),
    ];
    for (data, end, expected, stopped) in cases {
        let mut offset = 0usize;
        assert_eq!(next_tlv(&data, &mut offset, end).unwrap_err(), expected);
        assert_eq!(offset, stopped, "{data:?}");
    }
    let mut beyond = 3usize;
    assert_eq!(next_tlv(&[1, 2, 3], &mut beyond, 2).unwrap_err(), AsnError::TruncatedHeader);
    assert_eq!(beyond, 3);
}

#[test]
fn what_holds_the_identifier_introduces_members() {
    let holder = tlv(0x30, &tlv(0x31, &tlv(0x06, MEMBER2_OID)));
    let listed = joined(&[holder.clone(), tlv(0x30, &tlv(0x04, &[6u8; 32]))]);
    let record = members(&tlv(0x30, &listed)).unwrap();
    assert_eq!(record.members.as_slice(), &[Digest::Sha256([6; 32])]);
    let before = joined(&[tlv(0x30, &tlv(0x04, &[6u8; 32])), holder]);
    assert!(members(&tlv(0x30, &before)).unwrap().members.is_empty());
}
