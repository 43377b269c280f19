//! The Authenticode hashes of an executable: of the whole file but for its checksum, the entry
//! that tells where its certificates are, and the certificates.

use vstd::prelude::*;
use vstd::slice::slice_subrange;

use crate::digest::Digest;
use crate::hashing::{are_hashes_of, FileHasher, CHUNK_SIZE, MAX_HASHED};
use crate::pe_laws::{field, laid_out, law_what_of_an_executable_is_hashed};

verus! {

/// Why an executable cannot be hashed.
#[derive(Clone, Copy, Debug, PartialEq, Eq, Structural)]
pub enum PeError {
    /// The file ends within the header.
    TruncatedHeader,
    /// The optional header has no room for what is left out of the hash.
    SmallOptionalHeader,
    /// The file ends within the optional header.
    TruncatedOptionalHeader,
    /// The certificates begin before the end of their entry or end beyond the file.
    InvalidCertificateRange,
    /// There are no certificates, but a place for them beyond the file.
    InvalidCertificateOffset,
}

impl PeError {
    /// What the error says.
    pub open spec fn text(self) -> Seq<char> {
        match self {
            PeError::TruncatedHeader => "truncated PE header"@,
            PeError::SmallOptionalHeader => "PE optional header is too small"@,
            PeError::TruncatedOptionalHeader => "truncated PE optional header"@,
            PeError::InvalidCertificateRange => "invalid PE certificate range"@,
            PeError::InvalidCertificateOffset => "invalid PE certificate offset"@,
        }
    }

    /// What the error says.
    pub fn message(&self) -> (message: String)
        ensures
            message@ == self.text(),
    {
        match self {
            PeError::TruncatedHeader => "truncated PE header".to_owned(),
            PeError::SmallOptionalHeader => "PE optional header is too small".to_owned(),
            PeError::TruncatedOptionalHeader => "truncated PE optional header".to_owned(),
            PeError::InvalidCertificateRange => "invalid PE certificate range".to_owned(),
            PeError::InvalidCertificateOffset => "invalid PE certificate offset".to_owned(),
        }
    }
}

/// The number in two bytes, least significant first.
pub open spec fn le16(bytes: Seq<u8>) -> int {
    bytes[0] + bytes[1] * 0x100
}

/// The number in four bytes, least significant first.
pub open spec fn le32(bytes: Seq<u8>) -> int {
    bytes[0] + bytes[1] * 0x100 + bytes[2] * 0x1_0000 + bytes[3] * 0x100_0000
}

/// Where the header of an executable begins.
pub open spec fn header_at(file: Seq<u8>) -> int {
    le32(file.subrange(0x3c, 0x40))
}

/// How many bytes the optional header of an executable has.
pub open spec fn optional_size(file: Seq<u8>) -> int {
    le16(file.subrange(header_at(file) + 20, header_at(file) + 22))
}

/// Where the entry that tells of the certificates begins; it has eight bytes.
pub open spec fn entry_at(file: Seq<u8>) -> int {
    header_at(file) + optional_size(file) - 0x48
}

/// Where the certificates begin, as their entry says.
pub open spec fn certificates_at(file: Seq<u8>) -> int {
    le32(file.subrange(entry_at(file), entry_at(file) + 4))
}

/// How many bytes the certificates have, as their entry says.
pub open spec fn certificates_size(file: Seq<u8>) -> int {
    le32(file.subrange(entry_at(file) + 4, entry_at(file) + 8))
}

/// The file is long enough for an executable's first header and begins as one.
pub open spec fn begins_as_executable(file: Seq<u8>) -> bool {
    file.len() >= 64 && file.subrange(0, 2) == seq![0x4Du8, 0x5A]
}

/// The header is marked as that of an executable.
pub open spec fn has_signature(file: Seq<u8>) -> bool {
    file.subrange(header_at(file), header_at(file) + 4) == seq![0x50u8, 0x45, 0, 0]
}

/// What of an executable is hashed.
pub open spec fn hashed_bytes(file: Seq<u8>) -> Seq<u8> {
    let len = file.len() as int;
    let rest = entry_at(file) + 8;
    file.subrange(0, header_at(file) + 0x58) + file.subrange(
        header_at(file) + 0x5c,
        entry_at(file),
    ) + if certificates_size(file) == 0 {
        file.subrange(rest, len)
    } else {
        file.subrange(rest, certificates_at(file)) + file.subrange(
            certificates_at(file) + certificates_size(file),
            len,
        )
    }
}

/// The bytes of `file` that its hashes are made of, if it is an executable; nothing, if it is
/// none; or why they cannot be told.
pub open spec fn authenticode(file: Seq<u8>) -> Result<Option<Seq<u8>>, PeError> {
    if !begins_as_executable(file) {
        Ok(None)
    } else if header_at(file) + 24 > file.len() {
        Err(PeError::TruncatedHeader)
    } else if !has_signature(file) {
        Ok(None)
    } else if optional_size(file) < 0xA4 {
        Err(PeError::SmallOptionalHeader)
    } else if header_at(file) + 24 + optional_size(file) > file.len() {
        Err(PeError::TruncatedOptionalHeader)
    } else if certificates_size(file) != 0 && (certificates_at(file) < entry_at(file) + 8
        || certificates_at(file) + certificates_size(file) > file.len()) {
        Err(PeError::InvalidCertificateRange)
    } else if certificates_size(file) == 0 && certificates_at(file) > file.len() {
        Err(PeError::InvalidCertificateOffset)
    } else {
        Ok(Some(hashed_bytes(file)))
    }
}

/// `result` is what `authenticode` says of `file`, with the hashes in place of the bytes.
pub open spec fn is_outcome(result: Result<Option<Vec<Digest>>, PeError>, file: Seq<u8>) -> bool {
    match authenticode(file) {
        Err(e) => result == Err::<Option<Vec<Digest>>, PeError>(e),
        Ok(None) => result == Ok::<Option<Vec<Digest>>, PeError>(None),
        Ok(Some(bytes)) => {
            &&& result is Ok && result->Ok_0 is Some
            &&& are_hashes_of(result->Ok_0->Some_0@, bytes)
        },
    }
}

/// How far the hashing of an executable has come.
#[derive(Debug)]
enum Stage {
    /// The first two bytes are wanted.
    Begin,
    /// Where the header begins is wanted.
    HeaderPlace,
    /// The mark of the header at this place is wanted.
    Signature(u64),
    /// The size of the optional header of the header at this place is wanted.
    OptionalSize(u64),
    /// The entry of the certificates, of the header at the first place, is wanted at the second.
    Entry(u64, u64),
    /// These pieces of the file, each with its start and end, are still to be hashed; the next
    /// one is last.
    Pieces(Vec<(u64, u64)>),
    /// It is no executable.
    NotExecutable,
    /// It cannot be hashed.
    Refused(PeError),
}

/// The bytes of the pieces of `file`, from the last piece to the first.
spec fn piece_bytes(pieces: Seq<(u64, u64)>, file: Seq<u8>) -> Seq<u8>
    decreases pieces.len(),
{
    if pieces.len() == 0 {
        seq![]
    } else {
        file.subrange(pieces.last().0 as int, pieces.last().1 as int) + piece_bytes(
            pieces.drop_last(),
            file,
        )
    }
}

/// How many bytes the pieces have.
spec fn piece_total(pieces: Seq<(u64, u64)>) -> int
    decreases pieces.len(),
{
    if pieces.len() == 0 {
        0
    } else {
        pieces.last().1 - pieces.last().0 + piece_total(pieces.drop_last())
    }
}

fn read_le16(bytes: &[u8]) -> (number: u16)
    requires
        bytes@.len() >= 2,
    ensures
        number == le16(bytes@),
{
    bytes[0] as u16 + bytes[1] as u16 * 0x100
}

fn read_le32(bytes: &[u8], at: usize) -> (number: u32)
    requires
        at + 4 <= bytes@.len(),
    ensures
        number == le32(bytes@.subrange(at as int, at + 4)),
{
    bytes[at] as u32 + bytes[at + 1] as u32 * 0x100 + bytes[at + 2] as u32 * 0x1_0000 + bytes[at
        + 3] as u32 * 0x100_0000
}

/// Each piece has bytes, and all of them are within the file.
spec fn are_pieces(pieces: Seq<(u64, u64)>, file_len: u64) -> bool {
    forall|i: int| 0 <= i < pieces.len() ==> (#[trigger] pieces[i]).0 < pieces[i].1 <= file_len
}

proof fn lemma_piece_total(pieces: Seq<(u64, u64)>, file_len: u64)
    requires
        are_pieces(pieces, file_len),
    ensures
        0 <= piece_total(pieces),
        pieces.len() > 0 ==> pieces.last().1 - pieces.last().0 <= piece_total(pieces),
    decreases pieces.len(),
{
    if pieces.len() > 0 {
        assert(are_pieces(pieces.drop_last(), file_len));
        lemma_piece_total(pieces.drop_last(), file_len);
    }
}

/// Puts a piece before those there are, unless it is empty.
fn push_piece(pieces: &mut Vec<(u64, u64)>, start: u64, end: u64, Ghost(file_len): Ghost<u64>)
    requires
        start <= end <= file_len,
        are_pieces(old(pieces)@, file_len),
    ensures
        are_pieces(final(pieces)@, file_len),
        piece_total(final(pieces)@) == piece_total(old(pieces)@) + (end - start),
        forall|file: Seq<u8>|
            file.len() == file_len ==> #[trigger] piece_bytes(final(pieces)@, file)
                == file.subrange(start as int, end as int) + piece_bytes(old(pieces)@, file),
{
    if start < end {
        pieces.push((start, end));
        assert(pieces@.drop_last() =~= old(pieces)@);
    } else {
        assert forall|file: Seq<u8>| file.len() == file_len implies #[trigger] piece_bytes(
            pieces@,
            file,
        ) == file.subrange(start as int, end as int) + piece_bytes(old(pieces)@, file) by {
            assert(file.subrange(start as int, end as int) + piece_bytes(old(pieces)@, file)
                =~= piece_bytes(old(pieces)@, file));
        }
    }
}

/// What comes after the entry of the certificates: the pieces of the file that are hashed, or
/// the refusal.
fn after_entry(file_len: u64, header: u64, entry: u64, part: &[u8]) -> (stage: Stage)
    requires
        file_len <= MAX_HASHED,
        header + 0x5c <= entry,
        entry + 0x60 <= file_len,
        part@.len() == 8,
    ensures
        ({
            let at = le32(part@.subrange(0, 4));
            let size = le32(part@.subrange(4, 8));
            if size != 0 && (at < entry + 8 || at + size > file_len) {
                stage == Stage::Refused(PeError::InvalidCertificateRange)
            } else if size == 0 && at > file_len {
                stage == Stage::Refused(PeError::InvalidCertificateOffset)
            } else {
                &&& stage is Pieces
                &&& are_pieces(stage->Pieces_0@, file_len)
                &&& 0 <= piece_total(stage->Pieces_0@) <= file_len
                &&& forall|file: Seq<u8>|
                    file.len() == file_len ==> #[trigger] piece_bytes(stage->Pieces_0@, file)
                        == file.subrange(0, header + 0x58) + file.subrange(
                        header + 0x5c,
                        entry as int,
                    ) + if size == 0 {
                        file.subrange(entry + 8, file_len as int)
                    } else {
                        file.subrange(entry + 8, at) + file.subrange(at + size, file_len as int)
                    }
            }
        }),
{
    let at: u64 = read_le32(part, 0) as u64;
    let size: u64 = read_le32(part, 4) as u64;
    let mut pieces: Vec<(u64, u64)> = Vec::new();
    if size != 0 {
        if at < entry + 8 || at + size > file_len {
            return Stage::Refused(PeError::InvalidCertificateRange);
        }
        push_piece(&mut pieces, at + size, file_len, Ghost(file_len));
        push_piece(&mut pieces, entry + 8, at, Ghost(file_len));
    } else {
        if at > file_len {
            return Stage::Refused(PeError::InvalidCertificateOffset);
        }
        push_piece(&mut pieces, entry + 8, file_len, Ghost(file_len));
    }
    let ghost rest = pieces@;
    push_piece(&mut pieces, header + 0x5c, entry, Ghost(file_len));
    let ghost middle = pieces@;
    push_piece(&mut pieces, 0, header + 0x58, Ghost(file_len));
    assert forall|file: Seq<u8>| file.len() == file_len implies #[trigger] piece_bytes(pieces@, file)
        == file.subrange(0, header + 0x58) + file.subrange(header + 0x5c, entry as int) + if size
        == 0 {
        file.subrange(entry + 8, file_len as int)
    } else {
        file.subrange(entry + 8, at as int) + file.subrange(at + size, file_len as int)
    } by {
        let first = file.subrange(0, header + 0x58);
        let second = file.subrange(header + 0x5c, entry as int);
        assert(piece_bytes(middle, file) == second + piece_bytes(rest, file));
        assert(first + (second + piece_bytes(rest, file)) =~= first + second + piece_bytes(
            rest,
            file,
        ));
        assert(piece_bytes(rest, file) =~= if size == 0 {
            file.subrange(entry + 8, file_len as int)
        } else {
            file.subrange(entry + 8, at as int) + file.subrange(at + size, file_len as int)
        });
    }
    Stage::Pieces(pieces)
}

/// The pieces that are left when `length` bytes of the next one are hashed.
fn after_part(mut pieces: Vec<(u64, u64)>, length: usize) -> (rest: Vec<(u64, u64)>)
    requires
        pieces@.len() > 0,
        0 < length <= pieces@.last().1 - pieces@.last().0,
    ensures
        piece_total(rest@) == piece_total(pieces@) - length,
        forall|file_len: u64| #[trigger]
            are_pieces(pieces@, file_len) ==> are_pieces(rest@, file_len),
        forall|file: Seq<u8>|
            pieces@.last().1 <= file.len() ==> piece_bytes(pieces@, file) == file.subrange(
                pieces@.last().0 as int,
                pieces@.last().0 + length,
            ) + #[trigger] piece_bytes(rest@, file),
{
    let ghost before = pieces@;
    let (start, end) = match pieces.pop() {
        Some(piece) => piece,
        None => (0, 0),
    };
    let next: u64 = start + length as u64;
    if next < end {
        pieces.push((next, end));
        assert(pieces@.drop_last() =~= before.drop_last());
        assert forall|file: Seq<u8>| end <= file.len() implies piece_bytes(before, file)
            == file.subrange(start as int, start + length) + #[trigger] piece_bytes(
            pieces@,
            file,
        ) by {
            assert(file.subrange(start as int, end as int) =~= file.subrange(
                start as int,
                next as int,
            ) + file.subrange(next as int, end as int));
            let rest = piece_bytes(before.drop_last(), file);
            assert(file.subrange(start as int, next as int) + file.subrange(next as int, end as int)
                + rest =~= file.subrange(start as int, next as int) + (file.subrange(
                next as int,
                end as int,
            ) + rest));
        }
    }
    pieces
}

/// Hashes an executable from the parts of it that it asks for, one after the other.
#[derive(Debug)]
pub struct PeHasher {
    file_len: u64,
    stage: Stage,
    hasher: FileHasher,
}

/// A part of a file: where it begins, how many bytes it has, and whether they are hashed or only
/// looked at.
#[derive(Clone, Copy, Debug, PartialEq, Eq, Structural)]
pub struct FilePart {
    pub offset: u64,
    pub length: usize,
    pub hashed: bool,
}

impl PeHasher {
    /// What the stage says is within the file, and the hasher can take in what is left.
    pub closed spec fn wf(self) -> bool {
        &&& self.file_len <= MAX_HASHED
        &&& self.hasher.wf()
        &&& match self.stage {
            Stage::Begin => self.file_len >= 64 && self.hasher@ == Seq::<u8>::empty(),
            Stage::HeaderPlace => self.file_len >= 64 && self.hasher@ == Seq::<u8>::empty(),
            Stage::Signature(header) => header + 24 <= self.file_len && self.hasher@ == Seq::<
                u8,
            >::empty(),
            Stage::OptionalSize(header) => header + 24 <= self.file_len && self.hasher@ == Seq::<
                u8,
            >::empty(),
            Stage::Entry(header, entry) => header + 0x5c <= entry && entry + 0x60 <= self.file_len
                && self.hasher@ == Seq::<u8>::empty(),
            Stage::Pieces(pieces) => {
                &&& are_pieces(pieces@, self.file_len)
                &&& self.hasher@.len() + piece_total(pieces@) <= self.file_len
            },
            Stage::NotExecutable => true,
            Stage::Refused(_) => true,
        }
    }

    /// Each part was handed over as `file` has it.
    pub closed spec fn follows(self, file: Seq<u8>) -> bool {
        &&& file.len() == self.file_len
        &&& match self.stage {
            Stage::Begin => true,
            Stage::HeaderPlace => begins_as_executable(file),
            Stage::Signature(header) => begins_as_executable(file) && header == header_at(file),
            Stage::OptionalSize(header) => begins_as_executable(file) && header == header_at(file)
                && has_signature(file),
            Stage::Entry(header, entry) => {
                &&& begins_as_executable(file)
                &&& header == header_at(file)
                &&& has_signature(file)
                &&& optional_size(file) >= 0xA4
                &&& header + 24 + optional_size(file) <= file.len()
                &&& entry == entry_at(file)
            },
            Stage::Pieces(pieces) => authenticode(file) == Ok::<Option<Seq<u8>>, PeError>(
                Some(self.hasher@ + piece_bytes(pieces@, file)),
            ),
            Stage::NotExecutable => authenticode(file) == Ok::<Option<Seq<u8>>, PeError>(None),
            Stage::Refused(e) => authenticode(file) == Err::<Option<Seq<u8>>, PeError>(e),
        }
    }

    /// The part of the file that is wanted next, if any is.
    pub closed spec fn request(self) -> Option<FilePart> {
        match self.stage {
            Stage::Begin => Some(FilePart { offset: 0, length: 2, hashed: false }),
            Stage::HeaderPlace => Some(FilePart { offset: 0x3c, length: 4, hashed: false }),
            Stage::Signature(header) => Some(FilePart { offset: header, length: 4, hashed: false }),
            Stage::OptionalSize(header) => Some(
                FilePart { offset: (header + 20) as u64, length: 2, hashed: false },
            ),
            Stage::Entry(_, entry) => Some(FilePart { offset: entry, length: 8, hashed: false }),
            Stage::Pieces(pieces) => if pieces@.len() == 0 {
                None
            } else {
                let (start, end) = pieces@.last();
                Some(
                    FilePart {
                        offset: start,
                        length: if end - start < CHUNK_SIZE {
                            (end - start) as usize
                        } else {
                            CHUNK_SIZE
                        },
                        hashed: true,
                    },
                )
            },
            Stage::NotExecutable => None,
            Stage::Refused(_) => None,
        }
    }

    /// A bound on how many parts are still to come.
    pub closed spec fn parts_left(self) -> int {
        match self.stage {
            Stage::Begin => self.file_len + 5,
            Stage::HeaderPlace => self.file_len + 4,
            Stage::Signature(_) => self.file_len + 3,
            Stage::OptionalSize(_) => self.file_len + 2,
            Stage::Entry(_, _) => self.file_len + 1,
            Stage::Pieces(pieces) => piece_total(pieces@),
            Stage::NotExecutable => 0,
            Stage::Refused(_) => 0,
        }
    }

    /// Begins with a file of `file_len` bytes of which nothing is known.
    pub fn begin(file_len: u64) -> (hasher: PeHasher)
        requires
            file_len <= MAX_HASHED,
        ensures
            hasher.wf(),
            forall|file: Seq<u8>|
                file.len() == file_len ==> #[trigger] hasher.follows(file),
    {
        let stage = if file_len < 64 {
            Stage::NotExecutable
        } else {
            Stage::Begin
        };
        PeHasher { file_len, stage, hasher: FileHasher::new() }
    }

    /// The part of the file that is to be handed over next; nothing, when the outcome is known.
    pub fn wanted(&self) -> (part: Option<FilePart>)
        requires
            self.wf(),
        ensures
            part == self.request(),
            part matches Some(p) ==> 0 < p.length <= CHUNK_SIZE && forall|file: Seq<u8>| #[trigger]
                self.follows(file) ==> p.offset + p.length <= file.len(),
    {
        match &self.stage {
            Stage::Begin => Some(FilePart { offset: 0, length: 2, hashed: false }),
            Stage::HeaderPlace => Some(FilePart { offset: 0x3c, length: 4, hashed: false }),
            Stage::Signature(header) => Some(
                FilePart { offset: *header, length: 4, hashed: false },
            ),
            Stage::OptionalSize(header) => Some(
                FilePart { offset: *header + 20, length: 2, hashed: false },
            ),
            Stage::Entry(_, entry) => Some(FilePart { offset: *entry, length: 8, hashed: false }),
            Stage::Pieces(pieces) => if pieces.len() == 0 {
                None
            } else {
                let (start, end) = pieces[pieces.len() - 1];
                let length: usize = if end - start < CHUNK_SIZE as u64 {
                    (end - start) as usize
                } else {
                    CHUNK_SIZE
                };
                Some(FilePart { offset: start, length, hashed: true })
            },
            Stage::NotExecutable => None,
            Stage::Refused(_) => None,
        }
    }

    /// Takes in the part of the file that was wanted.
    pub fn supply(&mut self, part: &[u8])
        requires
            old(self).wf(),
            old(self).request() matches Some(p) && part@.len() == p.length,
        ensures
            final(self).wf(),
            old(self).request() matches Some(p) ==> forall|file: Seq<u8>|
                old(self).follows(file) && part@ == file.subrange(
                    p.offset as int,
                    p.offset + p.length,
                ) ==> #[trigger] final(self).follows(file),
            0 <= final(self).parts_left() < old(self).parts_left(),
    {
        let mut stage = Stage::NotExecutable;
        std::mem::swap(&mut stage, &mut self.stage);
        self.stage = match stage {
            Stage::Begin => if part[0] == 0x4D && part[1] == 0x5A {
                assert(part@ =~= seq![0x4Du8, 0x5A]);
                Stage::HeaderPlace
            } else {
                assert(part@ != seq![0x4Du8, 0x5A]);
                Stage::NotExecutable
            },
            Stage::HeaderPlace => {
                let header: u64 = read_le32(part, 0) as u64;
                assert(part@ =~= part@.subrange(0, 4));
                if header + 24 > self.file_len {
                    Stage::Refused(PeError::TruncatedHeader)
                } else {
                    Stage::Signature(header)
                }
            },
            Stage::Signature(header) => if part[0] == 0x50 && part[1] == 0x45 && part[2] == 0
                && part[3] == 0 {
                assert(part@ =~= seq![0x50u8, 0x45, 0, 0]);
                Stage::OptionalSize(header)
            } else {
                assert(part@ != seq![0x50u8, 0x45, 0, 0]);
                Stage::NotExecutable
            },
            Stage::OptionalSize(header) => {
                let size: u64 = read_le16(part) as u64;
                if size < 0xA4 {
                    Stage::Refused(PeError::SmallOptionalHeader)
                } else if header + 24 + size > self.file_len {
                    Stage::Refused(PeError::TruncatedOptionalHeader)
                } else {
                    Stage::Entry(header, header + size - 0x48)
                }
            },
            Stage::Entry(header, entry) => after_entry(self.file_len, header, entry, part),
            Stage::Pieces(pieces) => {
                let ghost before = self.hasher@;
                proof {
                    lemma_piece_total(pieces@, self.file_len);
                }
                self.hasher.update(part);
                let rest = after_part(pieces, part.len());
                proof {
                    lemma_piece_total(rest@, self.file_len);
                }
                assert forall|file: Seq<u8>|
                    old(self).follows(file) && part@ == file.subrange(
                        pieces@.last().0 as int,
                        pieces@.last().0 + part@.len(),
                    ) implies authenticode(file) == Ok::<Option<Seq<u8>>, PeError>(
                    Some(self.hasher@ + #[trigger] piece_bytes(rest@, file)),
                ) by {
                    assert(before + (part@ + piece_bytes(rest@, file)) =~= before + part@
                        + piece_bytes(rest@, file));
                }
                Stage::Pieces(rest)
            },
            Stage::NotExecutable => Stage::NotExecutable,
            Stage::Refused(e) => Stage::Refused(e),
        };
    }

    /// The outcome, when no part is wanted any more.
    pub fn finish(self) -> (result: Result<Option<Vec<Digest>>, PeError>)
        requires
            self.wf(),
            self.request() is None,
        ensures
            forall|file: Seq<u8>| #[trigger] self.follows(file) ==> is_outcome(result, file),
    {
        match self.stage {
            Stage::Refused(e) => Err(e),
            Stage::Pieces(pieces) => {
                let digests = self.hasher.finish();
                assert forall|file: Seq<u8>| #[trigger] self.follows(file) implies are_hashes_of(
                    digests@,
                    authenticode(file)->Ok_0->Some_0,
                ) by {
                    assert(self.hasher@ + piece_bytes(pieces@, file) =~= self.hasher@);
                }
                Ok(Some(digests))
            },
            _ => Ok(None),
        }
    }
}

/// The Authenticode hashes of a file with the content `file`, if it is an executable.
pub fn hash_pe_authenticode(file: &[u8]) -> (result: Result<Option<Vec<Digest>>, PeError>)
    requires
        file@.len() <= MAX_HASHED,
    ensures
        is_outcome(result, file@),
{
    let len: usize = file.len();
    let mut hasher = PeHasher::begin(len as u64);
    assert(hasher.follows(file@));
    loop
        invariant
            len == file@.len(),
            hasher.wf(),
            hasher.follows(file@),
        decreases hasher.parts_left(),
    {
        match hasher.wanted() {
            Some(part) => {
                let start: usize = part.offset as usize;
                let bytes = slice_subrange(file, start, start + part.length);
                hasher.supply(bytes);
            },
            None => {
                return hasher.finish();
            },
        }
    }
}

/// Two files that agree but for the checksum and the certificates have the same hashes.
pub proof fn law_checksum_and_certificates_do_not_count(
    f: Seq<u8>,
    g: Seq<u8>,
    header: int,
    size: int,
    place: int,
    length: int,
)
    requires
        laid_out(f, header, size, place, length),
        authenticode(f) matches Ok(Some(_)),
        g.len() == f.len(),
        forall|i: int|
            0 <= i < f.len() && !(header + 0x58 <= i < header + 0x5c) && !(place <= i < place
                + length) ==> #[trigger] g[i] == f[i],
    ensures
        authenticode(g) == authenticode(f),
{
    law_what_of_an_executable_is_hashed(f, header, size, place, length);
    let entry = header + size - 0x48;
    assert(laid_out(g, header, size, place, length)) by {
        assert forall|i: int| 0 <= i < 4 implies #[trigger] g[0x3c + i] == f[0x3c + i] by {}
        assert forall|i: int| 0 <= i < 2 implies #[trigger] g[header + 20 + i] == f[header + 20
            + i] by {}
        assert forall|i: int| 0 <= i < 4 implies #[trigger] g[entry + i] == f[entry + i] by {}
        assert forall|i: int| 0 <= i < 4 implies #[trigger] g[entry + 4 + i] == f[entry + 4
            + i] by {}
    }
    law_what_of_an_executable_is_hashed(g, header, size, place, length);
    assert(g.subrange(0, header + 0x58) =~= f.subrange(0, header + 0x58));
    assert(g.subrange(header + 0x5c, entry) =~= f.subrange(header + 0x5c, entry));
    if length == 0 {
        assert(g.subrange(entry + 8, f.len() as int) =~= f.subrange(entry + 8, f.len() as int));
    } else {
        assert(g.subrange(entry + 8, place) =~= f.subrange(entry + 8, place));
        assert(g.subrange(place + length, f.len() as int) =~= f.subrange(
            place + length,
            f.len() as int,
        ));
    }
}

/// Signing keeps the hashes: a file without certificates, and the same file with another
/// checksum, with certificates at its end and with an entry that tells where they are, have the
/// same hashes.
pub proof fn law_signing_keeps_the_hashes(
    f: Seq<u8>,
    g: Seq<u8>,
    header: int,
    size: int,
    place: int,
)
    requires
        laid_out(f, header, size, place, 0),
        authenticode(f) matches Ok(Some(_)),
        g.len() > f.len(),
        forall|i: int|
            0 <= i < f.len() && !(header + 0x58 <= i < header + 0x5c) && !(header + size - 0x48 <= i
                < header + size - 0x40) ==> #[trigger] g[i] == f[i],
        field(g, header + size - 0x48, 4, f.len() as int),
        field(g, header + size - 0x44, 4, g.len() - f.len()),
    ensures
        authenticode(g) == authenticode(f),
{
    law_what_of_an_executable_is_hashed(f, header, size, place, 0);
    let entry = header + size - 0x48;
    assert(laid_out(g, header, size, f.len() as int, g.len() - f.len())) by {
        assert forall|i: int| 0 <= i < 4 implies #[trigger] g[0x3c + i] == f[0x3c + i] by {}
        assert forall|i: int| 0 <= i < 2 implies #[trigger] g[header + 20 + i] == f[header + 20
            + i] by {}
    }
    law_what_of_an_executable_is_hashed(g, header, size, f.len() as int, g.len() - f.len());
    assert(g.subrange(0, header + 0x58) =~= f.subrange(0, header + 0x58));
    assert(g.subrange(header + 0x5c, entry) =~= f.subrange(header + 0x5c, entry));
    assert(g.subrange(entry + 8, f.len() as int) =~= f.subrange(entry + 8, f.len() as int));
    let nothing = g.subrange(g.len() as int, g.len() as int);
    assert(nothing =~= seq![]);
    assert(authenticode(g)->Ok_0->Some_0 =~= authenticode(f)->Ok_0->Some_0);
}

/// The numbers that an executable's headers hold are not negative.
pub proof fn lemma_numbers_not_negative(f: Seq<u8>)
    ensures
        0 <= header_at(f),
        0 <= optional_size(f),
        0 <= certificates_at(f),
        0 <= certificates_size(f),
{
}

} // verus!
