//! Hashing a file with both hashes at once.

use vstd::prelude::*;

use crate::digest::Digest;

verus! {

/// The most bytes that a file may have to be hashed: both hashes keep the length in bits in 64
/// bits.
pub const MAX_HASHED: u64 = 0x1FFF_FFFF_FFFF_FFFF;

/// The most bytes that are read at a time.
pub const CHUNK_SIZE: usize = 0x100_0000;

#[verifier::external_type_specification]
#[verifier::external_body]
pub struct ExSha1(sha1::Sha1);

#[verifier::external_type_specification]
#[verifier::external_body]
pub struct ExSha256(sha2::Sha256);

/// The bytes that a SHA-1 hasher has taken in, in their order.
pub uninterp spec fn sha1_absorbed(hasher: sha1::Sha1) -> Seq<u8>;

/// The bytes that a SHA-256 hasher has taken in, in their order.
pub uninterp spec fn sha256_absorbed(hasher: sha2::Sha256) -> Seq<u8>;

/// The SHA-1 hash of `data`.
pub uninterp spec fn sha1_of(data: Seq<u8>) -> Seq<u8>;

/// The SHA-256 hash of `data`.
pub uninterp spec fn sha256_of(data: Seq<u8>) -> Seq<u8>;

/// `sha1::Sha1::new`: a hasher that has taken in nothing.
#[verifier::external_body]
fn sha1_new() -> (hasher: sha1::Sha1)
    ensures
        sha1_absorbed(hasher) == Seq::<u8>::empty(),
{
    sha1::Digest::new()
}

/// `sha1::Sha1::update`: the hasher takes in `data` behind what it has taken in before. The
/// count of blocks in it must not overflow.
#[verifier::external_body]
fn sha1_update(hasher: &mut sha1::Sha1, data: &[u8])
    requires
        sha1_absorbed(*old(hasher)).len() + data@.len() <= MAX_HASHED,
    ensures
        sha1_absorbed(*final(hasher)) == sha1_absorbed(*old(hasher)) + data@,
{
    sha1::Digest::update(hasher, data)
}

/// `sha1::Sha1::finalize`: the hash of all that the hasher has taken in, which depends on
/// nothing else. The length in bits must not overflow.
#[verifier::external_body]
fn sha1_finalize(hasher: sha1::Sha1) -> (hash: [u8; 20])
    requires
        sha1_absorbed(hasher).len() <= MAX_HASHED,
    ensures
        hash@ == sha1_of(sha1_absorbed(hasher)),
{
    sha1::Digest::finalize(hasher).into()
}

/// `sha2::Sha256::new`: a hasher that has taken in nothing.
#[verifier::external_body]
fn sha256_new() -> (hasher: sha2::Sha256)
    ensures
        sha256_absorbed(hasher) == Seq::<u8>::empty(),
{
    sha2::Digest::new()
}

/// `sha2::Sha256::update`: the hasher takes in `data` behind what it has taken in before. The
/// count of blocks in it must not overflow.
#[verifier::external_body]
fn sha256_update(hasher: &mut sha2::Sha256, data: &[u8])
    requires
        sha256_absorbed(*old(hasher)).len() + data@.len() <= MAX_HASHED,
    ensures
        sha256_absorbed(*final(hasher)) == sha256_absorbed(*old(hasher)) + data@,
{
    sha2::Digest::update(hasher, data)
}

/// `sha2::Sha256::finalize`: the hash of all that the hasher has taken in, which depends on
/// nothing else. The length in bits must not overflow.
#[verifier::external_body]
fn sha256_finalize(hasher: sha2::Sha256) -> (hash: [u8; 32])
    requires
        sha256_absorbed(hasher).len() <= MAX_HASHED,
    ensures
        hash@ == sha256_of(sha256_absorbed(hasher)),
{
    sha2::Digest::finalize(hasher).into()
}

/// `digests` are the SHA-1 and the SHA-256 hash of `data`.
pub open spec fn are_hashes_of(digests: Seq<Digest>, data: Seq<u8>) -> bool {
    &&& digests.len() == 2
    &&& digests[0] is Sha1 && digests[0]@ == sha1_of(data)
    &&& digests[1] is Sha256 && digests[1]@ == sha256_of(data)
}

/// Hashes what it is fed, piece by piece, with both hashes. Its view is all it was fed.
#[derive(Debug)]
pub struct FileHasher {
    sha1: sha1::Sha1,
    sha256: sha2::Sha256,
}

impl View for FileHasher {
    type V = Seq<u8>;

    closed spec fn view(&self) -> Seq<u8> {
        sha1_absorbed(self.sha1)
    }
}

impl FileHasher {
    /// Both hashers have taken in the same.
    pub closed spec fn wf(self) -> bool {
        sha256_absorbed(self.sha256) == sha1_absorbed(self.sha1)
    }

    /// A hasher that was fed nothing.
    pub fn new() -> (hasher: FileHasher)
        ensures
            hasher.wf(),
            hasher@ == Seq::<u8>::empty(),
    {
        FileHasher { sha1: sha1_new(), sha256: sha256_new() }
    }

    /// Feeds `data` to both hashes.
    pub fn update(&mut self, data: &[u8])
        requires
            old(self).wf(),
            old(self)@.len() + data@.len() <= MAX_HASHED,
        ensures
            final(self).wf(),
            final(self)@ == old(self)@ + data@,
    {
        sha1_update(&mut self.sha1, data);
        sha256_update(&mut self.sha256, data);
    }

    /// The hashes of all that was fed.
    pub fn finish(self) -> (digests: Vec<Digest>)
        requires
            self.wf(),
            self@.len() <= MAX_HASHED,
        ensures
            are_hashes_of(digests@, self@),
    {
        let mut digests: Vec<Digest> = Vec::new();
        digests.push(Digest::Sha1(sha1_finalize(self.sha1)));
        digests.push(Digest::Sha256(sha256_finalize(self.sha256)));
        digests
    }
}

/// The hashes of a file with the content `data`.
pub fn hash_file(data: &[u8]) -> (digests: Vec<Digest>)
    requires
        data@.len() <= MAX_HASHED,
    ensures
        are_hashes_of(digests@, data@),
{
    let mut hasher = FileHasher::new();
    hasher.update(data);
    assert(hasher@ =~= data@);
    hasher.finish()
}

/// What a read of a file gives: some bytes, none at the end of the file, or what went wrong.
pub type ReadView = Result<Seq<u8>, Seq<char>>;

/// What hashing a file comes to after one more read.
#[derive(Debug)]
pub enum Reading {
    /// There may be more to read.
    More(FileHasher),
    /// All was read, and these are the hashes.
    Done(Vec<Digest>),
    /// It could not be read.
    Failed(String),
}

impl FileHasher {
    /// Takes in what was read. A read that gives no bytes is the end of the file; one that fails is
    /// the last.
    pub fn take_read(self, read: Result<&[u8], String>) -> (reading: Reading)
        requires
            self.wf(),
            self@.len() <= MAX_HASHED,
            read matches Ok(data) ==> self@.len() + data@.len() <= MAX_HASHED,
        ensures
            match read {
                Err(message) => reading matches Reading::Failed(told) && told@ == message@,
                Ok(data) => if data@.len() == 0 {
                    reading matches Reading::Done(digests) && are_hashes_of(digests@, self@)
                } else {
                    reading matches Reading::More(hasher) && hasher.wf() && hasher@ == self@ + data@
                },
            },
    {
        match read {
            Err(message) => Reading::Failed(message),
            Ok(data) => {
                if data.len() == 0 {
                    return Reading::Done(self.finish());
                }
                let mut hasher = self;
                hasher.update(data);
                Reading::More(hasher)
            },
        }
    }
}

/// What each of `reads` gave.
pub open spec fn read_views(reads: Seq<Result<Vec<u8>, String>>) -> Seq<ReadView> {
    reads.map_values(
        |read: Result<Vec<u8>, String>|
            match read {
                Ok(data) => Ok::<Seq<u8>, Seq<char>>(data@),
                Err(message) => Err(message@),
            },
    )
}

/// All that reads give one after another, up to the first that gives no bytes, or what went wrong
/// first.
pub open spec fn read_through(reads: Seq<ReadView>) -> ReadView
    decreases reads.len(),
{
    if reads.len() == 0 {
        Ok(Seq::empty())
    } else {
        match reads[0] {
            Err(message) => Err(message),
            Ok(data) => if data.len() == 0 {
                Ok(Seq::empty())
            } else {
                match read_through(reads.drop_first()) {
                    Err(message) => Err(message),
                    Ok(rest) => Ok(data + rest),
                }
            },
        }
    }
}

/// How many bytes reads give together.
pub open spec fn read_size(reads: Seq<ReadView>) -> nat
    decreases reads.len(),
{
    if reads.len() == 0 {
        0
    } else {
        read_size(reads.drop_first()) + match reads[0] {
            Ok(data) => data.len(),
            Err(_) => 0,
        }
    }
}

/// Hashes a file from what reading it gives, read after read.
pub fn hash_reader(reads: &Vec<Result<Vec<u8>, String>>) -> (result: Result<Vec<Digest>, String>)
    requires
        read_size(read_views(reads@)) <= MAX_HASHED,
    ensures
        match read_through(read_views(reads@)) {
            Ok(data) => result matches Ok(digests) && are_hashes_of(digests@, data),
            Err(message) => result matches Err(told) && told@ == message,
        },
{
    let ghost views = read_views(reads@);
    let mut hasher = FileHasher::new();
    assert(views.skip(0) =~= views);
    assert(read_through(views) is Ok ==> hasher@ + read_through(views)->Ok_0
        =~= read_through(views)->Ok_0);
    for i in 0..reads.len()
        invariant
            views == read_views(reads@),
            hasher.wf(),
            hasher@.len() + read_size(views.skip(i as int)) <= MAX_HASHED,
            match read_through(views.skip(i as int)) {
                Ok(rest) => read_through(views) == Ok::<Seq<u8>, Seq<char>>(hasher@ + rest),
                Err(message) => read_through(views) == Err::<Seq<u8>, Seq<char>>(message),
            },
    {
        let ghost before = hasher@;
        assert(views.skip(i as int)[0] == views[i as int]);
        assert(views.skip(i as int).drop_first() =~= views.skip(i + 1));
        let read = match &reads[i] {
            Ok(data) => Ok(data.as_slice()),
            Err(message) => Err(message.clone()),
        };
        match hasher.take_read(read) {
            Reading::More(more) => {
                hasher = more;
                proof {
                    if let Ok(rest) = read_through(views.skip(i + 1)) {
                        let data = views[i as int]->Ok_0;
                        assert(before + (data + rest) =~= (before + data) + rest);
                    }
                }
            },
            Reading::Done(digests) => {
                assert(before + Seq::<u8>::empty() =~= before);
                return Ok(digests);
            },
            Reading::Failed(message) => {
                return Err(message);
            },
        }
    }
    assert(views.skip(views.len() as int) =~= Seq::<ReadView>::empty());
    assert(hasher@ + Seq::<u8>::empty() =~= hasher@);
    Ok(hasher.finish())
}

/// All pieces, one behind another.
pub open spec fn joined(pieces: Seq<Seq<u8>>) -> Seq<u8>
    decreases pieces.len(),
{
    if pieces.len() == 0 {
        Seq::empty()
    } else {
        pieces[0] + joined(pieces.drop_first())
    }
}

/// Reads that give `pieces`, and then `rest`.
pub open spec fn reads_of(pieces: Seq<Seq<u8>>, rest: Seq<ReadView>) -> Seq<ReadView> {
    pieces.map_values(|piece: Seq<u8>| Ok::<Seq<u8>, Seq<char>>(piece)) + rest
}

/// However a file is cut into pieces, reading them to the end gives all of it; whatever would be
/// read after the end does not matter.
pub proof fn law_pieces_make_the_whole(pieces: Seq<Seq<u8>>, rest: Seq<ReadView>)
    requires
        forall|i: int| 0 <= i < pieces.len() ==> (#[trigger] pieces[i]).len() > 0,
    ensures
        read_through(reads_of(pieces, seq![Ok(Seq::empty())] + rest)) == Ok::<Seq<u8>, Seq<char>>(
            joined(pieces),
        ),
    decreases pieces.len(),
{
    let reads = reads_of(pieces, seq![Ok(Seq::empty())] + rest);
    if pieces.len() == 0 {
        assert(reads[0] == Ok::<Seq<u8>, Seq<char>>(Seq::empty()));
    } else {
        let less = pieces.drop_first();
        assert(forall|i: int| 0 <= i < less.len() ==> #[trigger] less[i] == pieces[i + 1]);
        law_pieces_make_the_whole(less, rest);
        assert(reads[0] == Ok::<Seq<u8>, Seq<char>>(pieces[0]));
        assert(reads.drop_first() =~= reads_of(less, seq![Ok(Seq::empty())] + rest));
    }
}

/// Pieces one behind another keep their order: none make nothing, and one
/// more goes to the end.
pub proof fn law_pieces_keep_their_order(pieces: Seq<Seq<u8>>, piece: Seq<u8>)
    ensures
        joined(Seq::empty()) == Seq::<u8>::empty(),
        joined(pieces.push(piece)) == joined(pieces) + piece,
    decreases pieces.len(),
{
    if pieces.len() == 0 {
        reveal_with_fuel(joined, 2);
        assert(pieces.push(piece).drop_first() =~= Seq::<Seq<u8>>::empty());
        assert(joined(pieces.push(piece)) =~= joined(pieces) + piece);
    } else {
        law_pieces_keep_their_order(pieces.drop_first(), piece);
        assert(pieces.push(piece).drop_first() =~= pieces.drop_first().push(piece));
        assert(joined(pieces.push(piece)) =~= joined(pieces) + piece);
    }
}

/// However a file is cut into pieces, its hashes are the same.
pub proof fn law_cuts_do_not_matter(
    pieces: Seq<Seq<u8>>,
    others: Seq<Seq<u8>>,
    digests: Seq<Digest>,
)
    requires
        forall|i: int| 0 <= i < pieces.len() ==> (#[trigger] pieces[i]).len() > 0,
        forall|i: int| 0 <= i < others.len() ==> (#[trigger] others[i]).len() > 0,
        joined(pieces) == joined(others),
    ensures
        ({
            let end = seq![Ok::<Seq<u8>, Seq<char>>(Seq::empty())];
            let read = read_through(reads_of(pieces, end));
            &&& read == read_through(reads_of(others, end))
            &&& read is Ok
            &&& are_hashes_of(digests, read->Ok_0) <==> are_hashes_of(digests, joined(pieces))
        }),
{
    let end = seq![Ok::<Seq<u8>, Seq<char>>(Seq::empty())];
    law_pieces_make_the_whole(pieces, seq![]);
    law_pieces_make_the_whole(others, seq![]);
    assert(end + seq![] =~= end);
}

/// A read that fails makes hashing fail with what it says, and nothing after it is read.
pub proof fn law_a_failed_read_fails(pieces: Seq<Seq<u8>>, message: Seq<char>, rest: Seq<ReadView>)
    requires
        forall|i: int| 0 <= i < pieces.len() ==> (#[trigger] pieces[i]).len() > 0,
    ensures
        read_through(reads_of(pieces, seq![Err(message)] + rest)) == Err::<Seq<u8>, Seq<char>>(
            message,
        ),
    decreases pieces.len(),
{
    let reads = reads_of(pieces, seq![Err(message)] + rest);
    if pieces.len() == 0 {
        assert(reads[0] == Err::<Seq<u8>, Seq<char>>(message));
    } else {
        let less = pieces.drop_first();
        assert(forall|i: int| 0 <= i < less.len() ==> #[trigger] less[i] == pieces[i + 1]);
        law_a_failed_read_fails(less, message, rest);
        assert(reads[0] == Ok::<Seq<u8>, Seq<char>>(pieces[0]));
        assert(reads.drop_first() =~= reads_of(less, seq![Err(message)] + rest));
    }
}

} // verus!
