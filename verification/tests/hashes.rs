use cat_trim::digest::Digest;
use cat_trim::digest_set::DigestSet;
use cat_trim::hashing::{hash_file, hash_reader, FileHasher, Reading, CHUNK_SIZE, MAX_HASHED};
use cat_trim::pe::{hash_pe_authenticode, FilePart, PeError, PeHasher};

const HEADER: usize = 0x40;
const OPTIONAL: usize = 0xE0;
const ENTRY: usize = HEADER + OPTIONAL - 0x48;

fn executable(optional: usize, checksum: u32, certificates: (u32, u32), tail: &[u8]) -> Vec<u8> {
    let mut file = vec![0u8; HEADER + 24];
    file[0..2].copy_from_slice(b"MZ");
    file[0x3c..0x40].copy_from_slice(&(HEADER as u32).to_le_bytes());
    file[HEADER..HEADER + 4].copy_from_slice(b"PE\0\0");
    file[HEADER + 20..HEADER + 22].copy_from_slice(&(optional as u16).to_le_bytes());
    file.extend((0..optional).map(|i| (i * 7 + 1) as u8));
    file[HEADER + 0x58..HEADER + 0x5c].copy_from_slice(&checksum.to_le_bytes());
    let entry = HEADER + optional - 0x48;
    file[entry..entry + 4].copy_from_slice(&certificates.0.to_le_bytes());
    file[entry + 4..entry + 8].copy_from_slice(&certificates.1.to_le_bytes());
    file.extend(tail);
    file
}

fn plain() -> Vec<u8> {
    executable(OPTIONAL, 0x04030201, (0, 0), b"body")
}

fn texts(digests: &[Digest]) -> Vec<String> {
    digests.iter().map(|d| d.to_string()).collect()
}

#[test]
fn digests_are_told_by_their_bytes() {
    assert_eq!(Digest::from_bytes(&[1; 20]), Some(Digest::Sha1([1; 20])));
    assert_eq!(Digest::from_bytes(&[1; 32]), Some(Digest::Sha256([1; 32])));
    assert_eq!(Digest::from_bytes(&[]), None);
    assert_eq!(Digest::from_bytes(&[0]), None);
    assert_eq!(Digest::from_bytes(&[1; 19]), None);
    assert_eq!(Digest::from_bytes(&[1; 21]), None);
    assert_eq!(Digest::from_bytes(&[1; 82]), None);
    assert_eq!(Digest::from_bytes(&[0; 20]), None);
    let mut half_zero = [9u8; 32];
    half_zero[0] = 0;
    assert_eq!(Digest::from_bytes(&half_zero), Some(Digest::Sha256(half_zero)));
    half_zero[1] = 0;
    assert_eq!(Digest::from_bytes(&half_zero), None);
}

#[test]
fn digests_are_shown_in_upper_case() {
    let mut bytes = [0u8; 20];
    bytes[0] = 0x0A;
    bytes[1] = 0xF9;
    bytes[19] = 0xBC;
    assert_eq!(
        Digest::Sha1(bytes).to_string(),
        "0AF90000000000000000000000000000000000BC"
    );
    assert_eq!(Digest::Sha256([0xEF; 32]).to_string(), "EF".repeat(32));
}

#[test]
fn a_set_holds_each_digest_once() {
    let mut set = DigestSet::new();
    assert!(set.is_empty());
    set.insert(Digest::Sha256([1; 32]));
    set.insert(Digest::Sha1([2; 20]));
    set.insert(Digest::Sha1([1; 20]));
    set.insert(Digest::Sha1([2; 20]));
    assert!(!set.is_empty());
    assert_eq!(set.len(), 3);
    assert!(set.contains(&Digest::Sha1([1; 20])));
    assert!(!set.contains(&Digest::Sha1([3; 20])));
    assert_eq!(
        set.as_slice(),
        &[Digest::Sha1([1; 20]), Digest::Sha1([2; 20]), Digest::Sha256([1; 32])]
    );
    let list = vec![
        Digest::Sha1([2; 20]),
        Digest::Sha256([1; 32]),
        Digest::Sha1([1; 20]),
        Digest::Sha256([1; 32]),
    ];
    assert_eq!(DigestSet::from_digests(&list).as_slice(), set.as_slice());
    assert!(DigestSet::from_digests(&vec![]).is_empty());
}

#[test]
fn both_hashes_of_a_file() {
    assert_eq!(
        texts(&hash_file(b"abc")),
        [
            "A9993E364706816ABA3E25717850C26C9CD0D89D",
            "BA7816BF8F01CFEA414140DE5DAE2223B00361A396177A9CB410FF61F20015AD"
        ]
    );
    assert_eq!(
        texts(&hash_file(b"")),
        [
            "DA39A3EE5E6B4B0D3255BFEF95601890AFD80709",
            "E3B0C44298FC1C149AFBF4C8996FB92427AE41E4649B934CA495991B7852B855"
        ]
    );
}

#[test]
fn hashing_in_pieces_is_hashing_the_whole() {
    let mut hasher = FileHasher::new();
    hasher.update(b"a");
    hasher.update(b"");
    hasher.update(b"bc");
    assert_eq!(hasher.finish(), hash_file(b"abc"));
    assert_eq!(CHUNK_SIZE, 16 * 1024 * 1024);
    assert_eq!(MAX_HASHED, u64::MAX / 8);
}

#[test]
fn the_hashes_of_an_executable() {
    let digests = hash_pe_authenticode(&plain()).unwrap().unwrap();
    assert_eq!(
        texts(&digests),
        [
            "529DE8DA447BFE5A959034BCBD6DF33FD805FA3C",
            "D7FA4C7AD06A3B30122872C9341CE760CCE217B1D729DE818A76D10D648D6FF2"
        ]
    );
    let file = plain();
    let hashed = [
        &file[..HEADER + 0x58],
        &file[HEADER + 0x5c..ENTRY],
        &file[ENTRY + 8..],
    ]
    .concat();
    assert_eq!(digests, hash_file(&hashed));
    assert_ne!(digests, hash_file(&file));
}

#[test]
fn the_checksum_does_not_count() {
    let other = executable(OPTIONAL, 77, (0, 0), b"body");
    assert_eq!(
        hash_pe_authenticode(&other).unwrap(),
        hash_pe_authenticode(&plain()).unwrap()
    );
}

#[test]
fn signing_does_not_count() {
    let len = plain().len() as u32;
    let signed = executable(OPTIONAL, 0x9D9C9B9A, (len, 9), b"bodysignature");
    assert_eq!(
        hash_pe_authenticode(&signed).unwrap(),
        hash_pe_authenticode(&plain()).unwrap()
    );
    let other = executable(OPTIONAL, 0x9D9C9B9A, (len, 9), b"bodySIGNATURE");
    assert_eq!(
        hash_pe_authenticode(&other).unwrap(),
        hash_pe_authenticode(&plain()).unwrap()
    );
    let tampered = executable(OPTIONAL, 0x9D9C9B9A, (len, 9), b"b0dysignature");
    assert_ne!(
        hash_pe_authenticode(&tampered).unwrap(),
        hash_pe_authenticode(&plain()).unwrap()
    );
}

#[test]
fn what_follows_the_certificates_counts() {
    let len = plain().len() as u32;
    let file = executable(OPTIONAL, 0, (len - 4, 2), b"body");
    let hashed = [
        &file[..HEADER + 0x58],
        &file[HEADER + 0x5c..ENTRY],
        &file[ENTRY + 8..len as usize - 4],
        b"dy",
    ]
    .concat();
    assert_eq!(hash_pe_authenticode(&file).unwrap().unwrap(), hash_file(&hashed));
}

#[test]
fn certificates_may_begin_right_behind_their_entry() {
    let start = (ENTRY + 8) as u32;
    let file = executable(OPTIONAL, 0, (start, 3), b"");
    let hashed = [
        &file[..HEADER + 0x58],
        &file[HEADER + 0x5c..ENTRY],
        &file[ENTRY + 11..],
    ]
    .concat();
    assert_eq!(hash_pe_authenticode(&file).unwrap().unwrap(), hash_file(&hashed));
}

#[test]
fn what_is_no_executable_is_left_alone() {
    assert_eq!(hash_pe_authenticode(b""), Ok(None));
    assert_eq!(hash_pe_authenticode(&plain()[..63]), Ok(None));
    assert_eq!(hash_pe_authenticode(&[b'M'; 200]), Ok(None));
    let mut unmarked = plain();
    unmarked[HEADER] = b'N';
    assert_eq!(hash_pe_authenticode(&unmarked), Ok(None));
}

#[test]
fn broken_executables_are_refused() {
    let refused = |file: &[u8], expected: PeError, text: &str| {
        assert_eq!(hash_pe_authenticode(file), Err(expected));
        assert_eq!(expected.message(), text);
    };
    refused(
        &plain()[..HEADER + 23],
        PeError::TruncatedHeader,
        "truncated PE header",
    );
    refused(
        &executable(0xA3, 0, (0, 0), b""),
        PeError::SmallOptionalHeader,
        "PE optional header is too small",
    );
    refused(
        &executable(OPTIONAL, 0, (0, 0), b"")[..HEADER + 24 + OPTIONAL - 1],
        PeError::TruncatedOptionalHeader,
        "truncated PE optional header",
    );
    let len = plain().len() as u32;
    for range in [(ENTRY as u32 + 7, 1), (0, 1), (len, 1), (len - 1, 2), (u32::MAX, u32::MAX)] {
        refused(
            &executable(OPTIONAL, 0, range, b"body"),
            PeError::InvalidCertificateRange,
            "invalid PE certificate range",
        );
    }
    refused(
        &executable(OPTIONAL, 0, (len + 1, 0), b"body"),
        PeError::InvalidCertificateOffset,
        "invalid PE certificate offset",
    );
    assert!(hash_pe_authenticode(&executable(OPTIONAL, 0, (len, 0), b"body")).unwrap().is_some());
    assert!(hash_pe_authenticode(&executable(0xA4, 0, (0, 0), b"")).unwrap().is_some());
}

#[test]
fn parts_are_asked_for_one_by_one() {
    let file = plain();
    let mut hasher = PeHasher::begin(file.len() as u64);
    let mut asked: Vec<FilePart> = Vec::new();
    while let Some(part) = hasher.wanted() {
        let start = part.offset as usize;
        hasher.supply(&file[start..start + part.length]);
        asked.push(part);
    }
    let expected: Vec<(u64, usize)> = vec![
        (0, 2),
        (0x3c, 4),
        (HEADER as u64, 4),
        (HEADER as u64 + 20, 2),
        (ENTRY as u64, 8),
        (0, HEADER + 0x58),
        (HEADER as u64 + 0x5c, ENTRY - HEADER - 0x5c),
        (ENTRY as u64 + 8, file.len() - ENTRY - 8),
    ];
    assert!(asked.iter().enumerate().all(|(i, part)| part.hashed == (i >= 5)));
    let asked: Vec<(u64, usize)> = asked.iter().map(|p| (p.offset, p.length)).collect();
    assert_eq!(asked, expected);
    assert_eq!(hasher.finish(), hash_pe_authenticode(&file));
}

#[test]
fn long_executables_are_read_in_chunks() {
    let tail = vec![5u8; CHUNK_SIZE + 10];
    let file = executable(OPTIONAL, 0, (0, 0), &tail);
    let mut hasher = PeHasher::begin(file.len() as u64);
    let mut longest = 0usize;
    while let Some(part) = hasher.wanted() {
        let start = part.offset as usize;
        longest = longest.max(part.length);
        hasher.supply(&file[start..start + part.length]);
    }
    assert_eq!(longest, CHUNK_SIZE);
    let hashed = [
        &file[..HEADER + 0x58],
        &file[HEADER + 0x5c..ENTRY],
        &file[ENTRY + 8..],
    ]
    .concat();
    assert_eq!(hasher.finish().unwrap().unwrap(), hash_file(&hashed));
}

fn reads(pieces: &[&[u8]]) -> Vec<Result<Vec<u8>, String>> {
    pieces.iter().map(|piece| Ok(piece.to_vec())).collect()
}

#[test]
fn however_a_file_is_cut_its_hashes_are_the_same() {
    let whole = hash_file(b"abcdef");
    assert_eq!(hash_reader(&reads(&[b"abcdef", b""])), Ok(whole.clone()));
    assert_eq!(hash_reader(&reads(&[b"a", b"bcd", b"ef", b""])), Ok(whole.clone()));
    assert_eq!(hash_reader(&reads(&[b"abc", b"def"])), Ok(whole.clone()));
    assert_eq!(hash_reader(&reads(&[b"abc", b"def", b"", b"more"])), Ok(whole));
    assert_eq!(hash_reader(&reads(&[b""])), Ok(hash_file(b"")));
    assert_eq!(hash_reader(&vec![]), Ok(hash_file(b"")));
}

#[test]
fn a_read_that_fails_is_the_last() {
    let mut broken = reads(&[b"abc"]);
    broken.push(Err("interrupted".to_string()));
    broken.extend(reads(&[b"def", b""]));
    broken.push(Err("later".to_string()));
    assert_eq!(hash_reader(&broken), Err("interrupted".to_string()));
    let mut ended = reads(&[b"abc", b""]);
    ended.push(Err("later".to_string()));
    assert_eq!(hash_reader(&ended), Ok(hash_file(b"abc")));
}

#[test]
fn a_read_is_taken_in() {
    let more = match FileHasher::new().take_read(Ok(b"abc")) {
        Reading::More(more) => more,
        other => panic!("{other:?}"),
    };
    match more.take_read(Ok(b"")) {
        Reading::Done(digests) => assert_eq!(digests, hash_file(b"abc")),
        other => panic!("{other:?}"),
    }
    match FileHasher::new().take_read(Err("gone".to_string())) {
        Reading::Failed(message) => assert_eq!(message, "gone"),
        other => panic!("{other:?}"),
    }
}
