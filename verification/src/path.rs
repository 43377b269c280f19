//! Paths of an image's files.

use vstd::prelude::*;
use vstd::relations::*;
use vstd::slice::slice_to_vec;
use vstd::utf8::encode_utf8;

use crate::order::{
    bytes_le, compare_bytes, lemma_bytes_total, lemma_lex_step, lemma_lex_total, lex_le, Rank,
};
use crate::sort::Ordered;

verus! {

/// A path, as the names it leads through from the outermost on, each in the bytes in which
/// the platform encodes it.
#[derive(Debug)]
pub struct FilePath {
    pub parts: Vec<Vec<u8>>,
}

impl View for FilePath {
    type V = Seq<Seq<u8>>;

    open spec fn view(&self) -> Seq<Seq<u8>> {
        self.parts@.map_values(|part: Vec<u8>| part@)
    }
}

/// The order of paths: name by name, each name by its bytes.
pub open spec fn path_le() -> spec_fn(Seq<Seq<u8>>, Seq<Seq<u8>>) -> bool {
    |a: Seq<Seq<u8>>, b: Seq<Seq<u8>>| lex_le(a, b, bytes_le())
}

/// Paths are totally ordered.
pub proof fn lemma_path_total()
    ensures
        total_ordering(path_le()),
{
    lemma_bytes_total();
    lemma_lex_total(bytes_le());
}

/// The name of the file that a path leads to. There is none at the end of an empty path, nor
/// where it ends by going up.
pub open spec fn file_name(path: Seq<Seq<u8>>) -> Option<Seq<u8>> {
    if path.len() == 0 || path.last() == seq![0x2Eu8, 0x2E] {
        None
    } else {
        Some(path.last())
    }
}

/// An ASCII letter in lower case; another byte as it is.
pub open spec fn lower(byte: u8) -> u8 {
    if 0x41 <= byte <= 0x5A {
        (byte + 0x20) as u8
    } else {
        byte
    }
}

/// Two byte strings are the same but for the case of ASCII letters.
pub open spec fn same_but_case(a: Seq<u8>, b: Seq<u8>) -> bool {
    a.map_values(|c: u8| lower(c)) == b.map_values(|c: u8| lower(c))
}

/// The last dot of `name` is at `dot`, and something is before it.
pub open spec fn extension_dot(name: Seq<u8>, dot: int) -> bool {
    &&& 0 < dot < name.len()
    &&& name[dot] == 0x2E
    &&& forall|i: int| dot < i < name.len() ==> name[i] != 0x2E
}

/// What is behind the last dot of the name at the end of `path` is `extension`, in any case. A
/// dot that begins the name does not count.
pub open spec fn has_extension(path: Seq<Seq<u8>>, extension: Seq<u8>) -> bool {
    &&& file_name(path) is Some
    &&& exists|dot: int| #[trigger]
        extension_dot(file_name(path)->Some_0, dot) && same_but_case(
            file_name(path)->Some_0.skip(dot + 1),
            extension,
        )
}

/// Whether two byte strings are the same but for the case of ASCII letters.
fn eq_ignore_case(a: &[u8], from: usize, b: &[u8]) -> (same: bool)
    requires
        from <= a@.len(),
    ensures
        same == same_but_case(a@.skip(from as int), b@),
{
    let ghost x = a@.skip(from as int).map_values(|c: u8| lower(c));
    let ghost y = b@.map_values(|c: u8| lower(c));
    let len: usize = a.len();
    if len - from != b.len() {
        assert(x.len() != y.len());
        return false;
    }
    for i in 0..b.len()
        invariant
            from <= a@.len(),
            len == a@.len(),
            len - from == b@.len(),
            x == a@.skip(from as int).map_values(|c: u8| lower(c)),
            y == b@.map_values(|c: u8| lower(c)),
            forall|k: int| 0 <= k < i ==> x[k] == y[k],
    {
        if lower_case(a[from + i]) != lower_case(b[i]) {
            assert(x[i as int] != y[i as int]);
            return false;
        }
    }
    assert(x =~= y);
    true
}

fn lower_case(byte: u8) -> (lowered: u8)
    ensures
        lowered == lower(byte),
{
    if 0x41 <= byte && byte <= 0x5A {
        byte + 0x20
    } else {
        byte
    }
}

impl FilePath {
    /// A path with the same names.
    pub fn copy(&self) -> (copy: FilePath)
        ensures
            copy@ == self@,
    {
        let mut parts: Vec<Vec<u8>> = Vec::new();
        for i in 0..self.parts.len()
            invariant
                parts@.len() == i,
                forall|k: int| 0 <= k < i ==> (#[trigger] parts@[k])@ == self.parts@[k]@,
        {
            parts.push(slice_to_vec(self.parts[i].as_slice()));
        }
        let copy = FilePath { parts };
        assert(copy@ =~= self@);
        copy
    }

    /// The path that leads on to `name`.
    pub fn join(&self, name: &[u8]) -> (path: FilePath)
        ensures
            path@ == self@.push(name@),
    {
        let mut path = self.copy();
        path.parts.push(slice_to_vec(name));
        assert(path@ =~= self@.push(name@));
        path
    }

    /// The name of the file that the path leads to.
    pub fn file_name(&self) -> (name: Option<&[u8]>)
        ensures
            match name {
                Some(name) => file_name(self@) == Some(name@),
                None => file_name(self@) is None,
            },
    {
        if self.parts.len() == 0 {
            return None;
        }
        let last = &self.parts[self.parts.len() - 1];
        assert(self@.last() == last@);
        if last.len() == 2 && last[0] == 0x2E && last[1] == 0x2E {
            assert(last@ =~= seq![0x2Eu8, 0x2E]);
            return None;
        }
        Some(last.as_slice())
    }

    /// Whether the name of the file that the path leads to ends in a dot and `extension`, in any
    /// case.
    pub fn has_extension(&self, extension: &[u8]) -> (found: bool)
        ensures
            found == has_extension(self@, extension@),
    {
        let name = match self.file_name() {
            None => {
                return false;
            },
            Some(name) => name,
        };
        let mut dot: usize = name.len();
        while dot > 0
            invariant
                dot <= name@.len(),
                file_name(self@) == Some(name@),
                forall|i: int| dot <= i < name@.len() ==> name@[i] != 0x2E,
            decreases dot,
        {
            dot = dot - 1;
            if name[dot] == 0x2E {
                assert(forall|other: int| #[trigger]
                    extension_dot(name@, other) ==> other == dot);
                if dot == 0 {
                    return false;
                }
                assert(extension_dot(name@, dot as int));
                let found = eq_ignore_case(name, dot + 1, extension);
                proof {
                    let end = file_name(self@)->Some_0;
                    assert(found == same_but_case(end.skip(dot + 1), extension@));
                    if has_extension(self@, extension@) {
                        let other = choose|other: int| #[trigger]
                            extension_dot(end, other) && same_but_case(
                                end.skip(other + 1),
                                extension@,
                            );
                        assert(other == dot);
                    }
                }
                return found;
            }
        }
        false
    }
}

impl Ordered for FilePath {
    open spec fn le() -> spec_fn(Seq<Seq<u8>>, Seq<Seq<u8>>) -> bool {
        path_le()
    }

    proof fn lemma_total() {
        lemma_path_total();
    }

    fn compare(&self, other: &FilePath) -> (rank: Rank) {
        let mut i: usize = 0;
        assert(self@.skip(0) =~= self@);
        assert(other@.skip(0) =~= other@);
        while i < self.parts.len() && i < other.parts.len()
            invariant
                i <= self.parts@.len(),
                i <= other.parts@.len(),
                forall|k: int| 0 <= k < i ==> self@[k] == other@[k],
                lex_le(self@, other@, bytes_le()) == lex_le(
                    self@.skip(i as int),
                    other@.skip(i as int),
                    bytes_le(),
                ),
                lex_le(other@, self@, bytes_le()) == lex_le(
                    other@.skip(i as int),
                    self@.skip(i as int),
                    bytes_le(),
                ),
            decreases self.parts.len() - i,
        {
            match compare_bytes(self.parts[i].as_slice(), other.parts[i].as_slice()) {
                Rank::Same => {},
                rank => {
                    assert(self@[i as int] != other@[i as int]);
                    return rank;
                },
            }
            proof {
                lemma_lex_step(self@, other@, i as int, bytes_le());
            }
            i = i + 1;
        }
        if self.parts.len() < other.parts.len() {
            Rank::Below
        } else if self.parts.len() > other.parts.len() {
            Rank::Above
        } else {
            assert(self@ =~= other@);
            Rank::Same
        }
    }
}

/// The name that Windows gives the directory of its own catalogs.
pub const CAT_GUID: &'static str = "{F750E6C3-38EE-11D1-85E5-00C04FC295EE}";

/// Where an image has its catalogs, from the root of the image on.
pub open spec fn cat_root(image_root: Seq<Seq<u8>>) -> Seq<Seq<u8>> {
    image_root.push(encode_utf8("Windows"@)).push(encode_utf8("System32"@)).push(
        encode_utf8("CatRoot"@),
    ).push(encode_utf8(CAT_GUID@))
}

/// The directory in which the image at `image_root` has its catalogs.
pub fn locate_cat_root(image_root: &FilePath) -> (root: FilePath)
    ensures
        root@ == cat_root(image_root@),
{
    image_root.join("Windows".as_bytes()).join("System32".as_bytes()).join(
        "CatRoot".as_bytes(),
    ).join(CAT_GUID.as_bytes())
}

} // verus!
