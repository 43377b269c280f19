//! File digests as catalogs list them.

use vstd::prelude::*;

verus! {

/// A file hash: SHA-1 or SHA-256.
///
/// Its view is its bytes: their number tells the two kinds apart, so that two digests
/// with the same view are the same digest.
#[derive(Clone, Copy, Debug, Eq, Hash, Ord, PartialEq, PartialOrd)]
pub enum Digest {
    Sha1([u8; 20]),
    Sha256([u8; 32]),
}

impl View for Digest {
    type V = Seq<u8>;

    open spec fn view(&self) -> Seq<u8> {
        match self {
            Digest::Sha1(bytes) => bytes@,
            Digest::Sha256(bytes) => bytes@,
        }
    }
}

/// The byte strings that are taken for digests: those of the two lengths that do not begin
/// with two zero bytes.
pub open spec fn is_digest(bytes: Seq<u8>) -> bool {
    &&& bytes.len() == 20 || bytes.len() == 32
    &&& !(bytes[0] == 0 && bytes[1] == 0)
}

/// The character that stands for a four-bit value in upper-case hexadecimal.
pub open spec fn hex_char(nibble: int) -> char {
    if nibble < 10 {
        (48 + nibble) as char
    } else {
        (55 + nibble) as char
    }
}

/// Two upper-case hexadecimal characters for each byte, high half first.
pub open spec fn upper_hex(bytes: Seq<u8>) -> Seq<char> {
    Seq::new(
        2 * bytes.len(),
        |i: int|
            if i % 2 == 0 {
                hex_char(bytes[i / 2] as int / 16)
            } else {
                hex_char(bytes[i / 2] as int % 16)
            },
    )
}

fn hex_digit(nibble: u8) -> (c: char)
    requires
        nibble < 16,
    ensures
        c == hex_char(nibble as int),
{
    if nibble < 10 {
        (48 + nibble) as char
    } else {
        (55 + nibble) as char
    }
}

fn copy_20(bytes: &[u8]) -> (copy: [u8; 20])
    requires
        bytes@.len() == 20,
    ensures
        copy@ == bytes@,
{
    let mut copy: [u8; 20] = [0; 20];
    for i in 0..20usize
        invariant
            bytes@.len() == 20,
            forall|k: int| 0 <= k < i ==> copy@[k] == bytes@[k],
    {
        copy[i] = bytes[i];
    }
    assert(copy@ =~= bytes@);
    copy
}

fn copy_32(bytes: &[u8]) -> (copy: [u8; 32])
    requires
        bytes@.len() == 32,
    ensures
        copy@ == bytes@,
{
    let mut copy: [u8; 32] = [0; 32];
    for i in 0..32usize
        invariant
            bytes@.len() == 32,
            forall|k: int| 0 <= k < i ==> copy@[k] == bytes@[k],
    {
        copy[i] = bytes[i];
    }
    assert(copy@ =~= bytes@);
    copy
}

impl Digest {
    /// Takes `bytes` for a digest if they have the length of one and do not begin with two
    /// zero bytes.
    pub fn from_bytes(bytes: &[u8]) -> (digest: Option<Self>)
        ensures
            digest is Some <==> is_digest(bytes@),
            digest matches Some(d) ==> d@ == bytes@,
    {
        if bytes.len() >= 2 && bytes[0] == 0 && bytes[1] == 0 {
            return None;
        }
        if bytes.len() == 20 {
            Some(Digest::Sha1(copy_20(bytes)))
        } else if bytes.len() == 32 {
            Some(Digest::Sha256(copy_32(bytes)))
        } else {
            None
        }
    }

    /// The digest's bytes.
    pub fn as_bytes(&self) -> (bytes: &[u8])
        ensures
            bytes@ == self@,
    {
        match self {
            Digest::Sha1(bytes) => bytes.as_slice(),
            Digest::Sha256(bytes) => bytes.as_slice(),
        }
    }

    /// The digest in upper-case hexadecimal.
    pub fn to_string(&self) -> (text: String)
        ensures
            text@ == upper_hex(self@),
    {
        let bytes = self.as_bytes();
        let mut text = String::new();
        for i in 0..bytes.len()
            invariant
                bytes@ == self@,
                text@ == upper_hex(bytes@.take(i as int)),
        {
            let byte: u8 = bytes[i];
            text.push(hex_digit(byte / 16));
            text.push(hex_digit(byte % 16));
            assert(text@ =~= upper_hex(bytes@.take(i + 1)));
        }
        assert(bytes@.take(bytes@.len() as int) =~= bytes@);
        text
    }
}

/// A digest is the digest of its own bytes alone: no two digests share a view.
pub proof fn law_digest_is_its_bytes(a: Digest, b: Digest)
    ensures
        a@ == b@ <==> a == b,
{
    if a@ == b@ {
        match (a, b) {
            (Digest::Sha1(x), Digest::Sha1(y)) => {
                assert(x =~= y);
            },
            (Digest::Sha256(x), Digest::Sha256(y)) => {
                assert(x =~= y);
            },
            (Digest::Sha1(x), Digest::Sha256(y)) => {
                assert(x@.len() != y@.len());
            },
            (Digest::Sha256(x), Digest::Sha1(y)) => {
                assert(x@.len() != y@.len());
            },
        }
    }
}

} // verus!
