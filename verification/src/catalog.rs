//! Which file digests a security catalog lists.

use vstd::prelude::*;

use crate::asn1::{
    lemma_values_smaller, list_values, listed, next_tlv, parse_children, value_at, values_from,
    views, AsnError, Tlv, Value,
};
use crate::digest::{is_digest, Digest};
use crate::digest_set::DigestSet;
use crate::order::same_bytes;
use crate::path::FilePath;

verus! {

/// The object identifier that stands before the members of a catalog.
pub const MEMBER2_OID: [u8; 10] = [0x2B, 0x06, 0x01, 0x04, 0x01, 0x82, 0x37, 0x0C, 0x01, 0x03];

/// The object identifier of SHA-1.
pub const SHA1_OID: [u8; 5] = [0x2B, 0x0E, 0x03, 0x02, 0x1A];

/// The object identifier of SHA-256.
pub const SHA256_OID: [u8; 9] = [0x60, 0x86, 0x48, 0x01, 0x65, 0x03, 0x04, 0x02, 0x01];

/// What a walk over ASN.1 values has come to: the digests it gathered, whether it met the
/// object identifier of a member list, and what stopped it, if anything did.
#[verifier::ext_equal]
pub ghost struct Gathered {
    pub digests: Set<Seq<u8>>,
    pub found: bool,
    pub error: Option<AsnError>,
}

impl Gathered {
    /// A walk that gathered `digests`.
    pub open spec fn of(digests: Set<Seq<u8>>) -> Gathered {
        Gathered { digests, found: false, error: None }
    }

    /// A walk that came upon nothing.
    pub open spec fn nothing() -> Gathered {
        Gathered::of(Set::empty())
    }

    /// A walk that met the object identifier of a member list.
    pub open spec fn hit() -> Gathered {
        Gathered { digests: Set::empty(), found: true, error: None }
    }

    /// A walk that was stopped.
    pub open spec fn stopped(error: AsnError) -> Gathered {
        Gathered { digests: Set::empty(), found: false, error: Some(error) }
    }

    /// This walk and, unless it was stopped, the next.
    pub open spec fn followed_by(self, next: Gathered) -> Gathered {
        if self.error is Some {
            self
        } else {
            Gathered {
                digests: self.digests.union(next.digests),
                found: self.found || next.found,
                error: next.error,
            }
        }
    }
}

/// The digest that an octet string is, if it is one.
pub open spec fn octet_digest(value: Value) -> Set<Seq<u8>> {
    if value.tag == 0x04 && is_digest(value.content) {
        set![value.content]
    } else {
        Set::empty()
    }
}

/// Every digest among the octet strings that `data` lists from `offset` on, at any depth,
/// as a walk in their order gathers them.
pub open spec fn all_octets(data: Seq<u8>, offset: int) -> Gathered
    decreases data.len() - offset,
{
    if offset >= data.len() {
        Gathered::nothing()
    } else {
        match value_at(data, offset) {
            Err(e) => Gathered::stopped(e),
            Ok(None) => Gathered::nothing(),
            Ok(Some((value, next))) => Gathered::of(octet_digest(value)).followed_by(
                if value.constructed() && offset >= 0 {
                    all_octets(value.content, 0)
                } else {
                    Gathered::nothing()
                },
            ).followed_by(all_octets(data, next)),
        }
    }
}

/// Every digest among the octet strings inside the constructed ones of `values` from `from` on.
pub open spec fn following_octets(values: Seq<Value>, from: int) -> Gathered
    decreases values.len() - from,
{
    if from >= values.len() {
        Gathered::nothing()
    } else {
        (if values[from].constructed() {
            all_octets(values[from].content, 0)
        } else {
            Gathered::nothing()
        }).followed_by(following_octets(values, from + 1))
    }
}

/// The object identifier that stands before the members of a catalog.
pub open spec fn is_member_oid(value: Value) -> bool {
    value.tag == 0x06 && value.content == MEMBER2_OID@
}

/// The members behind each member identifier that is itself among `values` from `from` on.
pub open spec fn listed_members(values: Seq<Value>, from: int) -> Gathered
    decreases values.len() - from,
{
    if from >= values.len() {
        Gathered::nothing()
    } else {
        (if is_member_oid(values[from]) {
            Gathered::hit().followed_by(following_octets(values, from + 1))
        } else {
            Gathered::nothing()
        }).followed_by(listed_members(values, from + 1))
    }
}

/// The members inside the constructed values that `data` lists from `offset` on, the values
/// before `from` left out; where a value holds a member identifier, what follows the value is
/// a member list too.
pub open spec fn nested_members(data: Seq<u8>, offset: int, from: int) -> Gathered
    decreases data.len() - offset, 0int, values_from(data, offset)->Ok_0.len() - from,
{
    let values = values_from(data, offset)->Ok_0;
    if values_from(data, offset) is Err || offset < 0 || from < 0 || from >= values.len() {
        Gathered::nothing()
    } else {
        proof {
            lemma_values_smaller(data, offset, from);
        }
        (if values[from].constructed() {
            let inner = member_walk(values[from].content, 0);
            inner.followed_by(
                if inner.found {
                    following_octets(values, from + 1)
                } else {
                    Gathered::nothing()
                },
            )
        } else {
            Gathered::nothing()
        }).followed_by(nested_members(data, offset, from + 1))
    }
}

/// The members of the lists that a member identifier introduces, in what `data` lists from
/// `offset` on, at any depth.
pub open spec fn member_walk(data: Seq<u8>, offset: int) -> Gathered
    decreases data.len() - offset, 1int, 0int,
{
    match values_from(data, offset) {
        Err(e) => Gathered::stopped(e),
        Ok(values) => listed_members(values, 0).followed_by(nested_members(data, offset, 0)),
    }
}

/// The object identifier of one of the two hashes.
pub open spec fn is_hash_oid(value: Value) -> bool {
    value.tag == 0x06 && (value.content == SHA1_OID@ || value.content == SHA256_OID@)
}

/// The empty value that stands for no parameters.
pub open spec fn is_null(value: Value) -> bool {
    value.tag == 0x05 && value.content.len() == 0
}

/// A sequence that names one of the two hashes and has a null among its values.
pub open spec fn is_hash_algorithm(value: Value) -> bool {
    &&& value.tag == 0x30
    &&& values_from(value.content, 0) matches Ok(values) && {
        &&& exists|i: int| 0 <= i < values.len() && is_hash_oid(#[trigger] values[i])
        &&& exists|i: int| 0 <= i < values.len() && is_null(#[trigger] values[i])
    }
}

/// `digest` stands at `i` among `values`, right behind the hash that made it: the sequence
/// that names the hash, or its identifier and a null.
pub open spec fn is_labelled_digest(values: Seq<Value>, i: int, digest: Seq<u8>) -> bool {
    &&& octet_digest(values[i]).contains(digest)
    &&& {
        ||| i >= 1 && is_hash_algorithm(values[i - 1])
        ||| i >= 2 && is_hash_oid(values[i - 2]) && is_null(values[i - 1])
    }
}

/// The digests among `values` that stand right behind the hash that made them.
pub open spec fn labelled_digests(values: Seq<Value>) -> Set<Seq<u8>> {
    Set::new(
        |digest: Seq<u8>|
            exists|i: int| 0 <= i < values.len() && is_labelled_digest(values, i, digest),
    )
}

/// The labelled digests inside the constructed values that `data` lists, the values before
/// `from` left out.
pub open spec fn nested_digest_info(data: Seq<u8>, from: int) -> Gathered
    decreases data.len(), 0int, values_from(data, 0)->Ok_0.len() - from,
{
    let values = values_from(data, 0)->Ok_0;
    if values_from(data, 0) is Err || from < 0 || from >= values.len() {
        Gathered::nothing()
    } else {
        proof {
            lemma_values_smaller(data, 0, from);
        }
        (if values[from].constructed() {
            digest_info(values[from].content)
        } else {
            Gathered::nothing()
        }).followed_by(nested_digest_info(data, from + 1))
    }
}

/// The labelled digests in what `data` lists, at any depth.
pub open spec fn digest_info(data: Seq<u8>) -> Gathered
    decreases data.len(), 1int, 0int,
{
    match values_from(data, 0) {
        Err(e) => Gathered::stopped(e),
        Ok(values) => Gathered::of(labelled_digests(values)).followed_by(
            nested_digest_info(data, 0),
        ),
    }
}

/// One walk after another, and a third after both, is the first and then the other two.
proof fn lemma_followed_by(a: Gathered, b: Gathered, c: Gathered)
    ensures
        a.followed_by(b).followed_by(c) == a.followed_by(b.followed_by(c)),
        Gathered::nothing().followed_by(a) == a,
        a.followed_by(Gathered::nothing()) == a,
{
    assert(a.followed_by(b).followed_by(c) =~= a.followed_by(b.followed_by(c)));
    assert(Gathered::nothing().followed_by(a) =~= a);
    assert(a.followed_by(Gathered::nothing()) =~= a);
}

/// A set as it stands after a walk, and what the walk says.
pub open spec fn walked(before: DigestSet, after: DigestSet, walk: Gathered) -> bool {
    after@ == before@.union(walk.digests)
}

/// Puts in `out` every digest among the octet strings of `data`, at any depth.
///
/// Where the data turn out not to be ASN.1 values, `out` keeps what was found before.
pub fn collect_all_octets(data: &[u8], out: &mut DigestSet) -> (result: Result<(), AsnError>)
    ensures
        walked(*old(out), *final(out), all_octets(data@, 0)),
        match all_octets(data@, 0).error {
            Some(e) => result == Err::<(), AsnError>(e),
            None => result == Ok::<(), AsnError>(()),
        },
    decreases data@.len(),
{
    let ghost mut done = Gathered::nothing();
    let mut offset: usize = 0;
    assert(data@.take(data@.len() as int) =~= data@);
    proof {
        lemma_followed_by(all_octets(data@, 0), done, done);
        assert(out@ =~= old(out)@.union(done.digests));
    }
    while offset < data.len()
        invariant
            data@.take(data@.len() as int) == data@,
            done.error is None,
            all_octets(data@, 0) == done.followed_by(all_octets(data@, offset as int)),
            walked(*old(out), *out, done),
        decreases data.len() - offset,
    {
        let ghost at = offset as int;
        match next_tlv(data, &mut offset, data.len()) {
            Err(e) => {
                assert(all_octets(data@, 0).digests =~= done.digests);
                return Err(e);
            },
            Ok(None) => {
                return Ok(());
            },
            Ok(Some(tlv)) => {
                let ghost here = Gathered::of(octet_digest(tlv@));
                let ghost before_digest = out@;
                if tlv.tag == 0x04 {
                    if let Some(digest) = Digest::from_bytes(tlv.content) {
                        out.insert(digest);
                    }
                }
                assert(out@ =~= before_digest.union(here.digests));
                let ghost inner = if tlv.constructed {
                    all_octets(tlv.content@, 0)
                } else {
                    Gathered::nothing()
                };
                proof {
                    let rest = all_octets(data@, offset as int);
                    lemma_followed_by(done, here.followed_by(inner), rest);
                    lemma_followed_by(done, here, inner);
                    done = done.followed_by(here);
                    assert(out@ =~= old(out)@.union(done.digests));
                }
                if tlv.constructed {
                    let result = collect_all_octets(tlv.content, out);
                    proof {
                        done = done.followed_by(inner);
                        assert(out@ =~= old(out)@.union(done.digests));
                    }
                    if let Err(e) = result {
                        return Err(e);
                    }
                }
            },
        }
    }
    proof {
        lemma_followed_by(done, done, done);
    }
    Ok(())
}

/// Puts in `out` every digest among the octet strings inside the constructed ones of
/// `children` from `from` on.
fn collect_following(children: &Vec<Tlv<'_>>, from: usize, out: &mut DigestSet) -> (result: Result<
    (),
    AsnError,
>)
    requires
        listed(children@, views(children@)),
    ensures
        walked(*old(out), *final(out), following_octets(views(children@), from as int)),
        match following_octets(views(children@), from as int).error {
            Some(e) => result == Err::<(), AsnError>(e),
            None => result == Ok::<(), AsnError>(()),
        },
{
    let ghost values = views(children@);
    let ghost mut done = Gathered::nothing();
    let mut j: usize = from;
    proof {
        lemma_followed_by(following_octets(values, from as int), done, done);
        assert(out@ =~= old(out)@.union(done.digests));
    }
    while j < children.len()
        invariant
            values == views(children@),
            listed(children@, values),
            done.error is None,
            following_octets(values, from as int) == done.followed_by(
                following_octets(values, j as int),
            ),
            walked(*old(out), *out, done),
        decreases children.len() - j,
    {
        let tlv = children[j];
        assert(tlv@ == values[j as int] && tlv.wf());
        let ghost inner = if tlv.constructed {
            all_octets(tlv.content@, 0)
        } else {
            Gathered::nothing()
        };
        proof {
            lemma_followed_by(done, inner, following_octets(values, j + 1));
            done = done.followed_by(inner);
        }
        if tlv.constructed {
            let result = collect_all_octets(tlv.content, out);
            assert(out@ =~= old(out)@.union(done.digests));
            if let Err(e) = result {
                return Err(e);
            }
        }
        assert(out@ =~= old(out)@.union(done.digests));
        j = j + 1;
    }
    proof {
        lemma_followed_by(done, done, done);
    }
    Ok(())
}

/// Puts in `out` the members behind each member identifier among `children`, and says
/// whether there is one.
fn collect_listed_members(children: &Vec<Tlv<'_>>, out: &mut DigestSet) -> (found: Result<
    bool,
    AsnError,
>)
    requires
        listed(children@, views(children@)),
    ensures
        walked(*old(out), *final(out), listed_members(views(children@), 0)),
        match listed_members(views(children@), 0).error {
            Some(e) => found == Err::<bool, AsnError>(e),
            None => found == Ok::<bool, AsnError>(listed_members(views(children@), 0).found),
        },
{
    let ghost values = views(children@);
    let ghost mut done = Gathered::nothing();
    let mut found = false;
    proof {
        lemma_followed_by(listed_members(values, 0), done, done);
        assert(out@ =~= old(out)@.union(done.digests));
    }
    for i in 0..children.len()
        invariant
            values == views(children@),
            listed(children@, values),
            done.error is None,
            done.found == found,
            listed_members(values, 0) == done.followed_by(listed_members(values, i as int)),
            walked(*old(out), *out, done),
    {
        let tlv = children[i];
        assert(tlv@ == values[i as int] && tlv.wf());
        let ghost inner = if is_member_oid(tlv@) {
            Gathered::hit().followed_by(following_octets(values, i + 1))
        } else {
            Gathered::nothing()
        };
        proof {
            lemma_followed_by(done, inner, listed_members(values, i + 1));
            done = done.followed_by(inner);
        }
        if tlv.tag == 0x06 && same_bytes(tlv.content, MEMBER2_OID.as_slice()) {
            found = true;
            let result = collect_following(children, i + 1, out);
            assert(out@ =~= old(out)@.union(done.digests));
            if let Err(e) = result {
                return Err(e);
            }
        }
        assert(out@ =~= old(out)@.union(done.digests));
    }
    proof {
        lemma_followed_by(done, done, done);
    }
    Ok(found)
}

/// Puts in `out` the members of the lists that a member identifier introduces, in the first
/// `end` bytes of `data` from `start` on, at any depth, and says whether there is one.
pub fn collect_octets_after_member_oid(
    data: &[u8],
    start: usize,
    end: usize,
    out: &mut DigestSet,
) -> (found: Result<bool, AsnError>)
    requires
        end <= data@.len(),
    ensures
        walked(*old(out), *final(out), member_walk(data@.take(end as int), start as int)),
        match member_walk(data@.take(end as int), start as int).error {
            Some(e) => found == Err::<bool, AsnError>(e),
            None => found == Ok::<bool, AsnError>(
                member_walk(data@.take(end as int), start as int).found,
            ),
        },
    decreases end - start,
{
    let ghost all = data@.take(end as int);
    let children = match list_values(data, start, end) {
        Err(e) => {
            assert(out@ =~= old(out)@.union(Set::empty()));
            return Err(e);
        },
        Ok(children) => children,
    };
    let ghost values = views(children@);
    let ghost mut done = listed_members(values, 0);
    let mut found = match collect_listed_members(&children, out) {
        Err(e) => {
            return Err(e);
        },
        Ok(found) => found,
    };
    for i in 0..children.len()
        invariant
            all == data@.take(end as int),
            end <= data@.len(),
            values == views(children@),
            listed(children@, values),
            values_from(all, start as int) == Ok::<Seq<Value>, AsnError>(values),
            done.error is None,
            done.found == found,
            member_walk(all, start as int) == done.followed_by(
                nested_members(all, start as int, i as int),
            ),
            walked(*old(out), *out, done),
    {
        let tlv = children[i];
        assert(tlv@ == values[i as int] && tlv.wf());
        proof {
            lemma_values_smaller(all, start as int, i as int);
        }
        let ghost inner = if tlv.constructed {
            member_walk(tlv.content@, 0)
        } else {
            Gathered::nothing()
        };
        let ghost behind = if tlv.constructed && inner.found {
            following_octets(values, i + 1)
        } else {
            Gathered::nothing()
        };
        proof {
            let rest = nested_members(all, start as int, i + 1);
            lemma_followed_by(done, inner.followed_by(behind), rest);
            lemma_followed_by(done, inner, behind);
            lemma_followed_by(inner, behind, rest);
        }
        if tlv.constructed {
            assert(tlv.content@.take(tlv.content@.len() as int) =~= tlv.content@);
            let result = collect_octets_after_member_oid(tlv.content, 0, tlv.content.len(), out);
            proof {
                done = done.followed_by(inner);
                assert(out@ =~= old(out)@.union(done.digests));
            }
            match result {
                Err(e) => {
                    return Err(e);
                },
                Ok(inside) => {
                    if inside {
                        found = true;
                        let result = collect_following(&children, i + 1, out);
                        proof {
                            done = done.followed_by(behind);
                            assert(out@ =~= old(out)@.union(done.digests));
                        }
                        if let Err(e) = result {
                            return Err(e);
                        }
                    } else {
                        proof {
                            lemma_followed_by(done, behind, behind);
                        }
                    }
                },
            }
        } else {
            proof {
                lemma_followed_by(done, inner, behind);
                lemma_followed_by(inner, behind, behind);
            }
        }
    }
    proof {
        lemma_followed_by(done, done, done);
    }
    Ok(found)
}

/// Whether a value is a sequence that names one of the two hashes and has a null.
pub fn is_sha_algorithm(value: &Tlv<'_>) -> (is: bool)
    ensures
        is == is_hash_algorithm(value@),
{
    if value.tag != 0x30 {
        return false;
    }
    let children = match parse_children(value.content) {
        Err(_) => {
            return false;
        },
        Ok(children) => children,
    };
    let ghost values = views(children@);
    let mut has_oid = false;
    let mut has_null = false;
    for i in 0..children.len()
        invariant
            values == views(children@),
            has_oid == exists|k: int| 0 <= k < i && is_hash_oid(#[trigger] values[k]),
            has_null == exists|k: int| 0 <= k < i && is_null(#[trigger] values[k]),
    {
        let child = children[i];
        assert(child@ == values[i as int]);
        if names_hash(&child) {
            has_oid = true;
        }
        if child.tag == 0x05 && child.content.len() == 0 {
            assert(is_null(values[i as int]));
            has_null = true;
        }
    }
    has_oid && has_null
}

fn names_hash(value: &Tlv<'_>) -> (is: bool)
    ensures
        is == is_hash_oid(value@),
{
    value.tag == 0x06 && (same_bytes(value.content, SHA1_OID.as_slice()) || same_bytes(
        value.content,
        SHA256_OID.as_slice(),
    ))
}

/// Puts in `out` the digests of `data` that stand right behind the hash that made them, at
/// any depth.
///
/// Members of older catalogs carry their digest so: a sequence that names the hash, and the
/// digest in an octet string.
pub fn collect_digest_info(data: &[u8], out: &mut DigestSet) -> (result: Result<(), AsnError>)
    ensures
        walked(*old(out), *final(out), digest_info(data@)),
        match digest_info(data@).error {
            Some(e) => result == Err::<(), AsnError>(e),
            None => result == Ok::<(), AsnError>(()),
        },
    decreases data@.len(),
{
    let children = match parse_children(data) {
        Err(e) => {
            assert(out@ =~= old(out)@.union(Set::empty()));
            return Err(e);
        },
        Ok(children) => children,
    };
    let ghost values = views(children@);
    collect_labelled(&children, out);
    let ghost mut done = Gathered::of(labelled_digests(values));
    for i in 0..children.len()
        invariant
            values == views(children@),
            listed(children@, values),
            values_from(data@, 0) == Ok::<Seq<Value>, AsnError>(values),
            done.error is None,
            digest_info(data@) == done.followed_by(nested_digest_info(data@, i as int)),
            walked(*old(out), *out, done),
    {
        let tlv = children[i];
        assert(tlv@ == values[i as int] && tlv.wf());
        let ghost inner = if tlv.constructed {
            digest_info(tlv.content@)
        } else {
            Gathered::nothing()
        };
        proof {
            lemma_values_smaller(data@, 0, i as int);
            lemma_followed_by(done, inner, nested_digest_info(data@, i + 1));
            done = done.followed_by(inner);
        }
        if tlv.constructed {
            let result = collect_digest_info(tlv.content, out);
            assert(out@ =~= old(out)@.union(done.digests));
            if let Err(e) = result {
                return Err(e);
            }
        }
        assert(out@ =~= old(out)@.union(done.digests));
    }
    proof {
        lemma_followed_by(done, done, done);
    }
    Ok(())
}

/// Puts in `out` the digests among `children` that stand right behind the hash that made them.
fn collect_labelled(children: &Vec<Tlv<'_>>, out: &mut DigestSet)
    ensures
        final(out)@ == old(out)@.union(labelled_digests(views(children@))),
{
    let ghost values = views(children@);
    let ghost taken = |n: int|
        Set::new(
            |digest: Seq<u8>|
                exists|k: int| 0 <= k < n && is_labelled_digest(values, k, digest),
        );
    assert(out@ =~= old(out)@.union(taken(0)));
    for i in 0..children.len()
        invariant
            values == views(children@),
            taken == (|n: int|
                Set::new(
                    |digest: Seq<u8>|
                        exists|k: int| 0 <= k < n && is_labelled_digest(values, k, digest),
                )),
            out@ == old(out)@.union(taken(i as int)),
    {
        let tlv = children[i];
        assert(tlv@ == values[i as int]);
        assert(i >= 1 ==> children@[i - 1]@ == values[i - 1]);
        assert(i >= 2 ==> children@[i - 2]@ == values[i - 2]);
        if tlv.tag == 0x04 {
            if let Some(digest) = Digest::from_bytes(tlv.content) {
                let labelled = (i >= 1 && is_sha_algorithm(&children[i - 1])) || (i >= 2
                    && names_hash(&children[i - 2]) && children[i - 1].tag == 0x05 && children[i
                    - 1].content.len() == 0);
                if labelled {
                    out.insert(digest);
                    assert(is_labelled_digest(values, i as int, digest@));
                }
            }
        }
        assert(forall|d: Seq<u8>| #[trigger]
            taken(i + 1).contains(d) <==> (taken(i as int).contains(d) || is_labelled_digest(
                values,
                i as int,
                d,
            )));
        assert(out@ =~= old(out)@.union(taken(i + 1)));
    }
    assert(taken(children@.len() as int) =~= labelled_digests(values));
}

/// Why a file is no catalog.
#[derive(Clone, Copy, Debug, PartialEq, Eq, Structural)]
pub enum CatError {
    /// It does not begin with the tag of a sequence.
    NotASequence,
    /// The sequence it begins with is not all of it.
    InvalidOuter,
    /// It is not made of ASN.1 values.
    Asn(AsnError),
}

impl CatError {
    /// What the error says.
    pub open spec fn text(self) -> Seq<char> {
        match self {
            CatError::NotASequence => "CAT does not start with ASN.1 SEQUENCE"@,
            CatError::InvalidOuter => "CAT outer ASN.1 structure is invalid"@,
            CatError::Asn(e) => e.text(),
        }
    }

    /// What the error says.
    pub fn message(&self) -> (message: String)
        ensures
            message@ == self.text(),
    {
        match self {
            CatError::NotASequence => "CAT does not start with ASN.1 SEQUENCE".to_owned(),
            CatError::InvalidOuter => "CAT outer ASN.1 structure is invalid".to_owned(),
            CatError::Asn(e) => e.message(),
        }
    }
}

/// A catalog and the digests it lists.
#[derive(Debug)]
pub struct CatRecord {
    pub path: FilePath,
    pub members: DigestSet,
}

/// The digests that a catalog with the content `data` lists.
pub open spec fn catalog_members(data: Seq<u8>) -> Result<Set<Seq<u8>>, CatError> {
    if data.len() == 0 || data[0] != 0x30 {
        Err(CatError::NotASequence)
    } else {
        match value_at(data, 0) {
            Err(e) => Err(CatError::Asn(e)),
            Ok(None) => Err(CatError::InvalidOuter),
            Ok(Some((outer, next))) => if next != data.len() {
                Err(CatError::InvalidOuter)
            } else {
                let walk = member_walk(outer.content, 0).followed_by(digest_info(outer.content));
                match walk.error {
                    Some(e) => Err(CatError::Asn(e)),
                    None => Ok(walk.digests),
                }
            },
        }
    }
}

/// Reads the catalog at `path` from its content `data`.
pub fn parse_cat(path: &FilePath, data: &[u8]) -> (record: Result<CatRecord, CatError>)
    ensures
        match catalog_members(data@) {
            Err(e) => record == Err::<CatRecord, CatError>(e),
            Ok(members) => {
                &&& record is Ok
                &&& record->Ok_0.path@ == path@
                &&& record->Ok_0.members@ == members
            },
        },
{
    if data.len() == 0 || data[0] != 0x30 {
        return Err(CatError::NotASequence);
    }
    assert(data@.take(data@.len() as int) =~= data@);
    let mut offset: usize = 0;
    let outer = match next_tlv(data, &mut offset, data.len()) {
        Err(e) => {
            return Err(CatError::Asn(e));
        },
        Ok(None) => {
            return Err(CatError::InvalidOuter);
        },
        Ok(Some(outer)) => outer,
    };
    if offset != data.len() {
        return Err(CatError::InvalidOuter);
    }
    let mut members = DigestSet::new();
    assert(outer.content@.take(outer.content@.len() as int) =~= outer.content@);
    let ghost members_walk = member_walk(outer.content@, 0);
    let result = collect_octets_after_member_oid(
        outer.content,
        0,
        outer.content.len(),
        &mut members,
    );
    assert(members@ =~= members_walk.digests);
    if let Err(e) = result {
        return Err(CatError::Asn(e));
    }
    let result = collect_digest_info(outer.content, &mut members);
    assert(members@ =~= members_walk.digests.union(digest_info(outer.content@).digests));
    if let Err(e) = result {
        return Err(CatError::Asn(e));
    }
    Ok(CatRecord { path: path.copy(), members })
}

} // verus!
