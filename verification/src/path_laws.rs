//! What holds of paths, name by name and byte by byte.

use vstd::prelude::*;
use vstd::utf8::{encode_utf8, is_ascii_chars_encode_utf8};

use crate::digest_set::digest_le;
use crate::order::{byte_le, bytes_le, lemma_bytes_total, lex_le, ranks, Rank};
use crate::path::{
    cat_root, extension_dot, file_name, has_extension, lemma_path_total, lower, path_le,
    same_but_case,
};
use crate::report::PathView;

verus! {

/// Two sequences are the same up to `k`.
pub open spec fn same_up_to<T>(a: Seq<T>, b: Seq<T>, k: int) -> bool {
    &&& 0 <= k <= a.len()
    &&& k <= b.len()
    &&& forall|i: int| 0 <= i < k ==> #[trigger] a[i] == b[i]
}

/// A name comes before another: where they first differ, its byte is smaller, or it has ended.
pub open spec fn name_before(a: Seq<u8>, b: Seq<u8>) -> bool {
    exists|k: int| #[trigger] same_up_to(a, b, k) && k < b.len() && (k == a.len() || a[k] < b[k])
}

/// A path comes before another: where they first differ, its name comes before the other's, or it has
/// ended.
pub open spec fn path_before(a: PathView, b: PathView) -> bool {
    exists|k: int| #[trigger]
        same_up_to(a, b, k) && k < b.len() && (k == a.len() || name_before(a[k], b[k]))
}

proof fn lemma_lex_direct<T>(a: Seq<T>, b: Seq<T>, le: spec_fn(T, T) -> bool)
    ensures
        lex_le(a, b, le) <==> a == b || exists|k: int| #[trigger]
            same_up_to(a, b, k) && k < b.len() && (k == a.len() || a[k] != b[k] && le(a[k], b[k])),
    decreases a.len(),
{
    if a.len() == 0 {
        if b.len() == 0 {
            assert(a =~= b);
        } else {
            assert(same_up_to(a, b, 0));
        }
    } else if b.len() == 0 {
    } else if a[0] == b[0] {
        let x = a.drop_first();
        let y = b.drop_first();
        lemma_lex_direct(x, y, le);
        assert(a =~= seq![a[0]] + x);
        assert(b =~= seq![b[0]] + y);
        if lex_le(a, b, le) && a != b {
            let k = choose|k: int| #[trigger]
                same_up_to(x, y, k) && k < y.len() && (k == x.len() || x[k] != y[k] && le(
                    x[k],
                    y[k],
                ));
            assert forall|i: int| 0 <= i < k + 1 implies #[trigger] a[i] == b[i] by {
                if i > 0 {
                    assert(x[i - 1] == y[i - 1]);
                }
            }
            assert(same_up_to(a, b, k + 1));
        }
        if exists|k: int| #[trigger]
            same_up_to(a, b, k) && k < b.len() && (k == a.len() || a[k] != b[k] && le(a[k], b[k])) {
            let k = choose|k: int| #[trigger]
                same_up_to(a, b, k) && k < b.len() && (k == a.len() || a[k] != b[k] && le(
                    a[k],
                    b[k],
                ));
            if k > 0 {
                assert forall|i: int| 0 <= i < k - 1 implies #[trigger] x[i] == y[i] by {
                    assert(a[i + 1] == b[i + 1]);
                }
                assert(same_up_to(x, y, k - 1));
            }
        }
    } else {
        if le(a[0], b[0]) {
            assert(same_up_to(a, b, 0));
        }
        if exists|k: int| #[trigger]
            same_up_to(a, b, k) && k < b.len() && (k == a.len() || a[k] != b[k] && le(a[k], b[k])) {
            let k = choose|k: int| #[trigger]
                same_up_to(a, b, k) && k < b.len() && (k == a.len() || a[k] != b[k] && le(
                    a[k],
                    b[k],
                ));
            if k > 0 {
                assert(a[0] == b[0]);
            }
        }
    }
}

proof fn lemma_name_order(a: Seq<u8>, b: Seq<u8>)
    ensures
        bytes_le()(a, b) <==> a == b || name_before(a, b),
{
    lemma_lex_direct(a, b, byte_le());
    if name_before(a, b) {
        let k = choose|k: int| #[trigger]
            same_up_to(a, b, k) && k < b.len() && (k == a.len() || a[k] < b[k]);
        assert(same_up_to(a, b, k));
    }
}

/// Paths are in the order of the first name in which they differ, and names in that of the first byte
/// in which they do; what ends comes before what goes on.
pub proof fn law_paths_are_ordered_by_their_first_difference(a: PathView, b: PathView)
    ensures
        path_le()(a, b) <==> a == b || path_before(a, b),
{
    lemma_lex_direct(a, b, bytes_le());
    if a != b && path_le()(a, b) {
        let k = choose|k: int| #[trigger]
            same_up_to(a, b, k) && k < b.len() && (k == a.len() || a[k] != b[k] && bytes_le()(
                a[k],
                b[k],
            ));
        if k < a.len() {
            lemma_name_order(a[k], b[k]);
        }
        assert(same_up_to(a, b, k));
    }
    if path_before(a, b) {
        let k = choose|k: int| #[trigger]
            same_up_to(a, b, k) && k < b.len() && (k == a.len() || name_before(a[k], b[k]));
        if k < a.len() {
            lemma_name_order(a[k], b[k]);
            let m = choose|m: int| #[trigger]
                same_up_to(a[k], b[k], m) && m < b[k].len() && (m == a[k].len() || a[k][m]
                    < b[k][m]);
            assert(a[k] != b[k]) by {
                if m < a[k].len() {
                    assert(a[k][m] != b[k][m]);
                }
            }
        }
        assert(same_up_to(a, b, k));
    }
}

/// Bytes are compared by the first in which they differ: below is what comes before.
pub proof fn law_bytes_are_compared_by_their_first_difference(rank: Rank, a: Seq<u8>, b: Seq<u8>)
    requires
        ranks(rank, a, b, bytes_le()),
    ensures
        rank is Below <==> name_before(a, b),
        rank is Same <==> a == b,
        rank is Above <==> name_before(b, a),
{
    lemma_name_order(a, b);
    lemma_name_order(b, a);
    lemma_bytes_total();
    lemma_not_before_itself(a, b);
    lemma_not_before_itself(b, a);
}

/// Paths are compared by the first name in which they differ: below is what comes before.
pub proof fn law_paths_are_compared_by_their_first_difference(rank: Rank, a: PathView, b: PathView)
    requires
        ranks(rank, a, b, path_le()),
    ensures
        rank is Below ==> path_before(a, b),
        rank is Same <==> a == b,
        rank is Above ==> path_before(b, a),
{
    law_paths_are_ordered_by_their_first_difference(a, b);
    law_paths_are_ordered_by_their_first_difference(b, a);
    lemma_path_total();
}

/// Digests are in the order of their lengths, and of the first byte in which they differ where these
/// are the same.
pub proof fn law_digests_are_ordered_by_length_and_first_difference(a: Seq<u8>, b: Seq<u8>)
    ensures
        digest_le()(a, b) <==> a == b || a.len() < b.len() || (a.len() == b.len() && name_before(
            a,
            b,
        )),
{
    lemma_name_order(a, b);
    assert(bytes_le()(a, b) == lex_le(a, b, byte_le()));
}

proof fn lemma_not_before_itself(a: Seq<u8>, b: Seq<u8>)
    ensures
        name_before(a, b) ==> a != b,
{
    if name_before(a, b) {
        let k = choose|k: int| #[trigger]
            same_up_to(a, b, k) && k < b.len() && (k == a.len() || a[k] < b[k]);
        if k < a.len() {
            assert(a[k] != b[k]);
        }
    }
}

/// The name of a file is the last name of its path, unless there is none or it goes up.
pub proof fn law_the_file_name_is_the_last_name(path: PathView, name: Seq<u8>)
    ensures
        file_name(path.push(name)) == if name.len() == 2 && name[0] == 0x2E && name[1] == 0x2E {
            None
        } else {
            Some(name)
        },
        file_name(Seq::empty()) is None,
{
    assert(path.push(name).last() == name);
    if name.len() == 2 && name[0] == 0x2E && name[1] == 0x2E {
        assert(name =~= seq![0x2Eu8, 0x2E]);
    }
}

/// Two bytes are the same letter in either case, or the same byte.
pub open spec fn same_letter(a: u8, b: u8) -> bool {
    ||| a == b
    ||| 0x41 <= a <= 0x5A && b == a + 0x20
    ||| 0x41 <= b <= 0x5A && a == b + 0x20
}

/// A name that is something, a dot, and something without a dot has the latter for its extension, in
/// any case, and no other.
pub proof fn law_the_extension_is_behind_the_last_dot(
    path: PathView,
    stem: Seq<u8>,
    tail: Seq<u8>,
    extension: Seq<u8>,
)
    requires
        stem.len() > 0,
        forall|i: int| 0 <= i < tail.len() ==> #[trigger] tail[i] != 0x2E,
        stem.len() > 1 || stem[0] != 0x2E || tail.len() > 0,
    ensures
        has_extension(path.push(stem + seq![0x2Eu8] + tail), extension) <==> tail.len()
            == extension.len() && forall|i: int|
            0 <= i < tail.len() ==> same_letter(#[trigger] tail[i], extension[i]),
{
    let name = stem + seq![0x2Eu8] + tail;
    let dot = stem.len() as int;
    let whole = path.push(name);
    law_the_file_name_is_the_last_name(path, name);
    assert(name.len() >= 2);
    if name.len() == 2 {
        assert(tail.len() == 0);
        assert(name[0] == stem[0]);
    }
    assert(file_name(whole) == Some(name));
    assert(name[dot] == 0x2E);
    assert forall|i: int| dot < i < name.len() implies name[i] != 0x2E by {
        assert(name[i] == tail[i - dot - 1]);
    }
    assert(extension_dot(name, dot));
    assert(name.skip(dot + 1) =~= tail);
    lemma_same_letters(tail, extension);
    if has_extension(whole, extension) {
        let other = choose|other: int| #[trigger]
            extension_dot(name, other) && same_but_case(name.skip(other + 1), extension);
        if other < dot {
            assert(name[dot] != 0x2E);
        }
        assert(other == dot);
        assert(name.skip(other + 1) == tail);
        assert(same_but_case(tail, extension));
    }
    if same_but_case(tail, extension) {
        let end = file_name(whole)->Some_0;
        assert(extension_dot(end, dot) && same_but_case(end.skip(dot + 1), extension));
        assert(has_extension(whole, extension));
    }
}

/// A name without a dot, or with one at its beginning alone, has no extension.
pub proof fn law_no_dot_no_extension(path: PathView, name: Seq<u8>, extension: Seq<u8>)
    requires
        forall|i: int| 0 < i < name.len() ==> #[trigger] name[i] != 0x2E,
    ensures
        !has_extension(path.push(name), extension),
        !has_extension(Seq::empty(), extension),
{
    law_the_file_name_is_the_last_name(path, name);
}

proof fn lemma_same_letters(a: Seq<u8>, b: Seq<u8>)
    ensures
        same_but_case(a, b) <==> a.len() == b.len() && forall|i: int|
            0 <= i < a.len() ==> same_letter(#[trigger] a[i], b[i]),
{
    let x = a.map_values(|c: u8| lower(c));
    let y = b.map_values(|c: u8| lower(c));
    assert forall|c: u8, d: u8| #[trigger] lower(c) == #[trigger] lower(d) <==> same_letter(
        c,
        d,
    ) by {}
    if same_but_case(a, b) {
        assert(x.len() == y.len());
        assert forall|i: int| 0 <= i < a.len() implies same_letter(#[trigger] a[i], b[i]) by {
            assert(x[i] == y[i]);
            assert(x[i] == lower(a[i]) && y[i] == lower(b[i]));
        }
    }
    if a.len() == b.len() && forall|i: int|
        0 <= i < a.len() ==> same_letter(#[trigger] a[i], b[i]) {
        assert forall|i: int| 0 <= i < a.len() implies x[i] == y[i] by {
            assert(same_letter(a[i], b[i]));
            assert(lower(a[i]) == lower(b[i]));
        }
        assert(x =~= y);
    }
}

/// A name ends in a dot and three letters, in any case, with something before them.
pub open spec fn ends_in(path: PathView, first: u8, second: u8, third: u8) -> bool {
    let name = path.last();
    let n = name.len() as int;
    &&& path.len() > 0
    &&& n > 4
    &&& name[n - 4] == 0x2E
    &&& same_letter(name[n - 3], first)
    &&& same_letter(name[n - 2], second)
    &&& same_letter(name[n - 1], third)
}

/// A path has an extension of three letters exactly if its last name ends in a dot and these.
pub proof fn lemma_three_letters(path: PathView, first: u8, second: u8, third: u8)
    requires
        first != 0x2E && second != 0x2E && third != 0x2E,
        0x61 <= first <= 0x7A && 0x61 <= second <= 0x7A && 0x61 <= third <= 0x7A,
    ensures
        has_extension(path, seq![first, second, third]) <==> ends_in(path, first, second, third),
{
    let extension = seq![first, second, third];
    let name = path.last();
    let n = name.len() as int;
    if path.len() > 0 {
        assert(path =~= path.drop_last().push(name));
        if ends_in(path, first, second, third) {
            let stem = name.take(n - 4);
            let tail = name.skip(n - 3);
            assert(name =~= stem + seq![0x2Eu8] + tail);
            assert forall|i: int| 0 <= i < 3 implies same_letter(#[trigger] tail[i], extension[i])
                && tail[i] != 0x2E by {
                assert(tail[i] == name[n - 3 + i]);
            }
            law_the_extension_is_behind_the_last_dot(path.drop_last(), stem, tail, extension);
        }
        if has_extension(path, extension) {
            let dot = choose|dot: int| #[trigger]
                extension_dot(name, dot) && same_but_case(name.skip(dot + 1), extension);
            let tail = name.skip(dot + 1);
            lemma_same_letters(tail, extension);
            assert(tail.len() == 3);
            assert(same_letter(tail[0], extension[0]));
            assert(same_letter(tail[1], extension[1]));
            assert(same_letter(tail[2], extension[2]));
        }
    }
}

/// The directory of the catalogs is four names below the image, the same ones for every image.
pub proof fn law_the_catalogs_are_below_the_image(image_root: PathView)
    ensures
        cat_root(image_root) == image_root + cat_root(Seq::empty()),
        cat_root(Seq::empty()).len() == 4,
        cat_root(Seq::empty())[0] == seq![0x57u8, 0x69, 0x6E, 0x64, 0x6F, 0x77, 0x73],
        cat_root(Seq::empty())[1] == seq![0x53u8, 0x79, 0x73, 0x74, 0x65, 0x6D, 0x33, 0x32],
        cat_root(Seq::empty())[2] == seq![0x43u8, 0x61, 0x74, 0x52, 0x6F, 0x6F, 0x74],
        cat_root(Seq::empty())[3] == encode_utf8("{F750E6C3-38EE-11D1-85E5-00C04FC295EE}"@),
{
    assert(cat_root(image_root) =~= image_root + cat_root(Seq::empty()));
    reveal_strlit("Windows");
    reveal_strlit("System32");
    reveal_strlit("CatRoot");
    is_ascii_chars_encode_utf8("Windows"@);
    is_ascii_chars_encode_utf8("System32"@);
    is_ascii_chars_encode_utf8("CatRoot"@);
    assert(encode_utf8("Windows"@) =~= seq![0x57u8, 0x69, 0x6E, 0x64, 0x6F, 0x77, 0x73]);
    assert(encode_utf8("System32"@) =~= seq![0x53u8, 0x79, 0x73, 0x74, 0x65, 0x6D, 0x33, 0x32]);
    assert(encode_utf8("CatRoot"@) =~= seq![0x43u8, 0x61, 0x74, 0x52, 0x6F, 0x6F, 0x74]);
}

} // verus!
