//! What holds of hashing executables, byte by byte.

use vstd::arithmetic::power::pow;
use vstd::prelude::*;

use crate::digest::Digest;
use crate::hashing::{are_hashes_of, sha1_of, sha256_of};
use crate::pe::{authenticode, is_outcome, le16, le32, lemma_numbers_not_negative, PeError};

verus! {

/// The bytes of `file` at `at` are the `width` digits of `n` in base 256, the least significant
/// first.
pub open spec fn field(file: Seq<u8>, at: int, width: nat, n: int) -> bool {
    &&& 0 <= n < pow(256, width)
    &&& 0 <= at
    &&& at + width <= file.len()
    &&& forall|i: int|
        #![trigger file[at + i]]
        0 <= i < width ==> file[at + i] == (n / pow(256, i as nat)) % 256
}

proof fn lemma_powers()
    ensures
        pow(256, 0) == 1,
        pow(256, 1) == 0x100,
        pow(256, 2) == 0x1_0000,
        pow(256, 3) == 0x100_0000,
        pow(256, 4) == 0x1_0000_0000,
{
    reveal_with_fuel(pow, 5);
}

/// A number in four bytes is each byte times its power of 256, and one in two bytes likewise.
pub proof fn law_fields_are_little_endian(bytes: Seq<u8>)
    ensures
        bytes.len() == 4 ==> le32(bytes) == bytes[0] + bytes[1] * pow(256, 1) + bytes[2] * pow(
            256,
            2,
        ) + bytes[3] * pow(256, 3),
        bytes.len() == 2 ==> le16(bytes) == bytes[0] + bytes[1] * pow(256, 1),
{
    lemma_powers();
}

/// Every number below 2 to the 32nd reads back from its four bytes, the least significant first, and
/// every number below 2 to the 16th from its two.
pub proof fn law_fields_read_back(file: Seq<u8>, at: int, n: int)
    ensures
        field(file, at, 4, n) ==> le32(file.subrange(at, at + 4)) == n,
        field(file, at, 2, n) ==> le16(file.subrange(at, at + 2)) == n,
{
    lemma_powers();
    if field(file, at, 4, n) {
        let bytes = file.subrange(at, at + 4);
        assert(bytes[0] == file[at + 0] && bytes[1] == file[at + 1] && bytes[2] == file[at + 2]
            && bytes[3] == file[at + 3]);
        assert(n == n % 0x100 + ((n / 0x100) % 0x100) * 0x100 + ((n / 0x1_0000) % 0x100) * 0x1_0000
            + ((n / 0x100_0000) % 0x100) * 0x100_0000) by (nonlinear_arith)
            requires
                0 <= n < 0x1_0000_0000,
        ;
    }
    if field(file, at, 2, n) {
        let bytes = file.subrange(at, at + 2);
        assert(bytes[0] == file[at + 0] && bytes[1] == file[at + 1]);
        assert(n == n % 0x100 + ((n / 0x100) % 0x100) * 0x100);
    }
}

/// `file` begins as an executable, and says that its header is at `header`.
pub open spec fn points_to_header(file: Seq<u8>, header: int) -> bool {
    &&& file.len() >= 64
    &&& file[0] == 0x4D
    &&& file[1] == 0x5A
    &&& field(file, 0x3c, 4, header)
}

/// The header of an executable is at `header`, and says that the optional header behind it has `size`
/// bytes.
pub open spec fn has_header(file: Seq<u8>, header: int, size: int) -> bool {
    &&& points_to_header(file, header)
    &&& header + 24 <= file.len()
    &&& file[header] == 0x50
    &&& file[header + 1] == 0x45
    &&& file[header + 2] == 0
    &&& file[header + 3] == 0
    &&& field(file, header + 20, 2, size)
}

/// The file is an executable with its header at `header`, an optional header of `size` bytes, all of
/// it in the file, and an entry that says that its certificates are `length` bytes at `place`.
pub open spec fn laid_out(file: Seq<u8>, header: int, size: int, place: int, length: int) -> bool {
    &&& has_header(file, header, size)
    &&& size >= 0xA4
    &&& header + 24 + size <= file.len()
    &&& field(file, header + size - 0x48, 4, place)
    &&& field(file, header + size - 0x44, 4, length)
}

proof fn lemma_header_is_read(file: Seq<u8>, header: int)
    requires
        points_to_header(file, header),
    ensures
        crate::pe::begins_as_executable(file),
        crate::pe::header_at(file) == header,
        header >= 0,
        header + 24 <= file.len() ==> (crate::pe::has_signature(file) <==> file[header] == 0x50
            && file[header + 1] == 0x45 && file[header + 2] == 0 && file[header + 3] == 0),
{
    law_fields_read_back(file, 0x3c, header);
    assert(file.subrange(0, 2) =~= seq![0x4Du8, 0x5A]);
    if header + 24 <= file.len() {
        let mark = file.subrange(header, header + 4);
        assert(mark[0] == file[header] && mark[1] == file[header + 1] && mark[2] == file[header + 2]
            && mark[3] == file[header + 3]);
        if mark[0] == 0x50 && mark[1] == 0x45 && mark[2] == 0 && mark[3] == 0 {
            assert(mark =~= seq![0x50u8, 0x45, 0, 0]);
        }
        if mark == seq![0x50u8, 0x45, 0, 0] {
            assert(mark[0] == 0x50 && mark[1] == 0x45 && mark[2] == 0 && mark[3] == 0);
        }
    }
}

/// What of an executable is hashed: all of it but the four bytes of the checksum, the eight bytes of
/// the entry of the certificates, and the certificates. Where the entry cannot be, it is refused.
pub proof fn law_what_of_an_executable_is_hashed(
    file: Seq<u8>,
    header: int,
    size: int,
    place: int,
    length: int,
)
    requires
        laid_out(file, header, size, place, length),
    ensures
        ({
            let end = file.len() as int;
            let entry = header + size - 0x48;
            authenticode(file) == if length == 0 {
                if place > end {
                    Err(PeError::InvalidCertificateOffset)
                } else {
                    Ok(
                        Some(
                            file.subrange(0, header + 0x58) + file.subrange(header + 0x5c, entry)
                                + file.subrange(entry + 8, end),
                        ),
                    )
                }
            } else if place < entry + 8 || place + length > end {
                Err(PeError::InvalidCertificateRange)
            } else {
                Ok(
                    Some(
                        file.subrange(0, header + 0x58) + file.subrange(header + 0x5c, entry)
                            + file.subrange(entry + 8, place) + file.subrange(place + length, end),
                    ),
                )
            }
        }),
{
    let end = file.len() as int;
    let entry = header + size - 0x48;
    lemma_header_is_read(file, header);
    law_fields_read_back(file, header + 20, size);
    law_fields_read_back(file, entry, place);
    law_fields_read_back(file, entry + 4, length);
    if length != 0 && place >= entry + 8 && place + length <= end {
        let first = file.subrange(0, header + 0x58);
        let second = file.subrange(header + 0x5c, entry);
        let third = file.subrange(entry + 8, place);
        let fourth = file.subrange(place + length, end);
        assert(first + second + (third + fourth) =~= first + second + third + fourth);
    }
}

/// What is no executable is left alone, and one whose headers cannot be is refused.
pub proof fn law_what_is_no_executable(file: Seq<u8>, header: int, size: int)
    ensures
        !(file.len() >= 64 && file[0] == 0x4D && file[1] == 0x5A) ==> authenticode(file) == Ok::<
            Option<Seq<u8>>,
            PeError,
        >(None),
        points_to_header(file, header) && header + 24 > file.len() ==> authenticode(file) == Err::<
            Option<Seq<u8>>,
            PeError,
        >(PeError::TruncatedHeader),
        points_to_header(file, header) && header + 24 <= file.len() && !(file[header] == 0x50
            && file[header + 1] == 0x45 && file[header + 2] == 0 && file[header + 3] == 0)
            ==> authenticode(file) == Ok::<Option<Seq<u8>>, PeError>(None),
        has_header(file, header, size) && size < 0xA4 ==> authenticode(file) == Err::<
            Option<Seq<u8>>,
            PeError,
        >(PeError::SmallOptionalHeader),
        has_header(file, header, size) && size >= 0xA4 && header + 24 + size > file.len()
            ==> authenticode(file) == Err::<Option<Seq<u8>>, PeError>(
            PeError::TruncatedOptionalHeader,
        ),
{
    if file.len() >= 64 {
        let mark = file.subrange(0, 2);
        assert(mark[0] == file[0] && mark[1] == file[1]);
        if mark == seq![0x4Du8, 0x5A] {
            assert(mark[0] == 0x4D && mark[1] == 0x5A);
        }
    }
    if points_to_header(file, header) {
        lemma_header_is_read(file, header);
        law_fields_read_back(file, header + 20, size);
    }
}

/// Any four bytes are the field of some number, and so are any two.
pub proof fn law_fields_hold_a_number(file: Seq<u8>, at: int)
    requires
        0 <= at,
    ensures
        at + 4 <= file.len() ==> field(file, at, 4, le32(file.subrange(at, at + 4))),
        at + 2 <= file.len() ==> field(file, at, 2, le16(file.subrange(at, at + 2))),
{
    lemma_powers();
    if at + 4 <= file.len() {
        let bytes = file.subrange(at, at + 4);
        let n = le32(bytes);
        assert(bytes[0] == file[at + 0] && bytes[1] == file[at + 1] && bytes[2] == file[at + 2]
            && bytes[3] == file[at + 3]);
        assert(n % 0x100 == bytes[0] && (n / 0x100) % 0x100 == bytes[1] && (n / 0x1_0000) % 0x100
            == bytes[2] && (n / 0x100_0000) % 0x100 == bytes[3]);
        assert forall|i: int| 0 <= i < 4 implies #[trigger] file[at + i] == (n / pow(
            256,
            i as nat,
        )) % 256 by {
            assert(i == 0 || i == 1 || i == 2 || i == 3);
        }
    }
    if at + 2 <= file.len() {
        let bytes = file.subrange(at, at + 2);
        let n = le16(bytes);
        assert(bytes[0] == file[at + 0] && bytes[1] == file[at + 1]);
        assert forall|i: int| 0 <= i < 2 implies #[trigger] file[at + i] == (n / pow(
            256,
            i as nat,
        )) % 256 by {
            assert(i == 0 || i == 1);
        }
    }
}

/// Only an executable with all of its headers is hashed.
pub proof fn law_only_what_is_laid_out_is_hashed(file: Seq<u8>)
    requires
        authenticode(file) matches Ok(Some(_)),
    ensures
        exists|header: int, size: int, place: int, length: int|
            laid_out(file, header, size, place, length),
{
    let header = crate::pe::header_at(file);
    let size = crate::pe::optional_size(file);
    let entry = header + size - 0x48;
    lemma_numbers_not_negative(file);
    law_fields_hold_a_number(file, 0x3c);
    law_fields_hold_a_number(file, header + 20);
    law_fields_hold_a_number(file, entry);
    law_fields_hold_a_number(file, entry + 4);
    let begin = file.subrange(0, 2);
    assert(begin[0] == file[0] && begin[1] == file[1]);
    let mark = file.subrange(header, header + 4);
    assert(mark[0] == file[header] && mark[1] == file[header + 1] && mark[2] == file[header + 2]
        && mark[3] == file[header + 3]);
    assert(has_header(file, header, size));
    assert(laid_out(
        file,
        header,
        size,
        le32(file.subrange(entry, entry + 4)),
        le32(file.subrange(entry + 4, entry + 8)),
    ));
}

/// The outcome of hashing an executable is the SHA-1 and then the SHA-256 hash of what of it is hashed;
/// nothing for what is none; and why it cannot be hashed.
pub proof fn law_outcomes_are_of_what_is_hashed(
    result: Result<Option<Vec<Digest>>, PeError>,
    file: Seq<u8>,
)
    requires
        is_outcome(result, file),
    ensures
        result is Err <==> authenticode(file) is Err,
        result is Err ==> result->Err_0 == authenticode(file)->Err_0,
        result is Ok ==> (result->Ok_0 is Some <==> authenticode(file)->Ok_0 is Some),
        result is Ok && result->Ok_0 is Some ==> {
            let digests = result->Ok_0->Some_0@;
            let bytes = authenticode(file)->Ok_0->Some_0;
            &&& digests.len() == 2
            &&& digests[0] matches Digest::Sha1(hash) && hash@ == sha1_of(bytes)
            &&& digests[1] matches Digest::Sha256(hash) && hash@ == sha256_of(bytes)
        },
{
}

/// The hashes of data are its SHA-1 and then its SHA-256 hash.
pub proof fn law_hashes_are_of_the_data(digests: Seq<Digest>, data: Seq<u8>)
    requires
        are_hashes_of(digests, data),
    ensures
        digests.len() == 2,
        digests[0] matches Digest::Sha1(hash) && hash@ == sha1_of(data),
        digests[1] matches Digest::Sha256(hash) && hash@ == sha256_of(data),
{
}

} // verus!
