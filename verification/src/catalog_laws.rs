//! What holds of every catalog.

use vstd::prelude::*;

use crate::asn1::{lemma_values_smaller, value_at, values_from, AsnError, Value};
use crate::asn1_laws::law_constructed_is_a_bit_of_the_tag;
use crate::catalog::{
    all_octets, catalog_members, digest_info, following_octets, is_hash_algorithm, is_hash_oid,
    is_labelled_digest, is_member_oid, is_null, labelled_digests, listed_members, member_walk,
    nested_digest_info, nested_members, octet_digest, walked, CatError, Gathered, MEMBER2_OID,
    SHA1_OID, SHA256_OID,
};
use crate::digest::is_digest;
use crate::digest_set::DigestSet;

verus! {

/// `data` is a list of values from `offset` on, and so is the content of each constructed one
/// of them, at any depth. (A value's content is shorter than the data that list it.)
pub open spec fn well_formed(data: Seq<u8>, offset: int) -> bool
    decreases data.len() - offset,
{
    values_from(data, offset) matches Ok(values) && forall|i: int|
        0 <= i < values.len() && (#[trigger] values[i]).constructed() && values[i].content.len()
            < data.len() - offset ==> well_formed(values[i].content, 0)
}

proof fn lemma_well_formed_step(data: Seq<u8>, offset: int)
    requires
        0 <= offset < data.len(),
    ensures
        well_formed(data, offset) <==> match value_at(data, offset) {
            Ok(Some((value, next))) => {
                &&& value.constructed() ==> well_formed(value.content, 0)
                &&& well_formed(data, next)
            },
            _ => false,
        },
{
    if let Ok(Some((value, next))) = value_at(data, offset) {
        if values_from(data, next) is Ok {
            let rest = values_from(data, next)->Ok_0;
            let values = values_from(data, offset)->Ok_0;
            assert(values == seq![value] + rest);
            assert(values[0] == value);
            assert forall|i: int| 0 <= i < rest.len() implies rest[i] == #[trigger] values[i + 1]
                && rest[i].content.len() < data.len() - next by {
                lemma_values_smaller(data, next, i);
            }
            if well_formed(data, offset) {
                assert forall|i: int|
                    0 <= i < rest.len() && (#[trigger] rest[i]).constructed() implies well_formed(
                    rest[i].content,
                    0,
                ) by {
                    assert(values[i + 1].constructed());
                }
            }
            if well_formed(data, next) && (value.constructed() ==> well_formed(value.content, 0)) {
                assert forall|i: int|
                    0 <= i < values.len() && (#[trigger]
                    values[i]).constructed() implies well_formed(values[i].content, 0) by {
                    if i > 0 {
                        lemma_values_smaller(data, next, i - 1);
                        assert(rest[i - 1] == values[i]);
                    }
                }
            }
        }
    }
}

proof fn lemma_octets_succeed(data: Seq<u8>, offset: int)
    requires
        0 <= offset,
    ensures
        all_octets(data, offset).error is None <==> well_formed(data, offset),
    decreases data.len() - offset,
{
    if offset < data.len() {
        lemma_well_formed_step(data, offset);
        if let Ok(Some((value, next))) = value_at(data, offset) {
            if value.constructed() {
                lemma_octets_succeed(value.content, 0);
            }
            lemma_octets_succeed(data, next);
        }
    }
}

proof fn lemma_following_succeed(values: Seq<Value>, from: int)
    requires
        0 <= from,
        forall|i: int|
            0 <= i < values.len() && (#[trigger] values[i]).constructed() ==> well_formed(
                values[i].content,
                0,
            ),
    ensures
        following_octets(values, from).error is None,
    decreases values.len() - from,
{
    if from < values.len() {
        if values[from].constructed() {
            lemma_octets_succeed(values[from].content, 0);
        }
        lemma_following_succeed(values, from + 1);
    }
}

proof fn lemma_listed_succeed(values: Seq<Value>, from: int)
    requires
        0 <= from,
        forall|i: int|
            0 <= i < values.len() && (#[trigger] values[i]).constructed() ==> well_formed(
                values[i].content,
                0,
            ),
    ensures
        listed_members(values, from).error is None,
    decreases values.len() - from,
{
    if from < values.len() {
        lemma_following_succeed(values, from + 1);
        lemma_listed_succeed(values, from + 1);
    }
}

proof fn lemma_nested_succeed(data: Seq<u8>, offset: int, from: int)
    requires
        0 <= offset,
        0 <= from,
        values_from(data, offset) is Ok,
    ensures
        well_formed(data, offset) ==> nested_members(data, offset, from).error is None,
        nested_members(data, offset, from).error is None ==> forall|i: int|
            from <= i < values_from(data, offset)->Ok_0.len() && (#[trigger] values_from(
                data,
                offset,
            )->Ok_0[i]).constructed() ==> well_formed(values_from(data, offset)->Ok_0[i].content, 0),
    decreases data.len() - offset, 0int, values_from(data, offset)->Ok_0.len() - from,
{
    let values = values_from(data, offset)->Ok_0;
    if from < values.len() {
        lemma_values_smaller(data, offset, from);
        lemma_nested_succeed(data, offset, from + 1);
        if values[from].constructed() {
            lemma_walk_succeeds(values[from].content, 0);
        }
        if well_formed(data, offset) {
            assert forall|i: int|
                0 <= i < values.len() && (#[trigger] values[i]).constructed() implies well_formed(
                values[i].content,
                0,
            ) by {
                lemma_values_smaller(data, offset, i);
            }
            lemma_following_succeed(values, from + 1);
        }
    }
}

proof fn lemma_walk_succeeds(data: Seq<u8>, offset: int)
    requires
        0 <= offset,
    ensures
        member_walk(data, offset).error is None <==> well_formed(data, offset),
    decreases data.len() - offset, 1int, 0int,
{
    if let Ok(values) = values_from(data, offset) {
        lemma_nested_succeed(data, offset, 0);
        if well_formed(data, offset) {
            assert forall|i: int|
                0 <= i < values.len() && (#[trigger] values[i]).constructed() implies well_formed(
                values[i].content,
                0,
            ) by {
                lemma_values_smaller(data, offset, i);
            }
            lemma_listed_succeed(values, 0);
        }
    }
}

proof fn lemma_nested_info_succeeds(data: Seq<u8>, from: int)
    requires
        0 <= from,
        values_from(data, 0) is Ok,
    ensures
        well_formed(data, 0) ==> nested_digest_info(data, from).error is None,
        nested_digest_info(data, from).error is None ==> forall|i: int|
            from <= i < values_from(data, 0)->Ok_0.len() && (#[trigger] values_from(
                data,
                0,
            )->Ok_0[i]).constructed() ==> well_formed(values_from(data, 0)->Ok_0[i].content, 0),
    decreases data.len(), 0int, values_from(data, 0)->Ok_0.len() - from,
{
    let values = values_from(data, 0)->Ok_0;
    if from < values.len() {
        lemma_values_smaller(data, 0, from);
        lemma_nested_info_succeeds(data, from + 1);
        if values[from].constructed() {
            lemma_info_succeeds(values[from].content);
        }
    }
}

proof fn lemma_info_succeeds(data: Seq<u8>)
    ensures
        digest_info(data).error is None <==> well_formed(data, 0),
    decreases data.len(), 1int, 0int,
{
    if values_from(data, 0) is Ok {
        lemma_nested_info_succeeds(data, 0);
    }
}

/// A file is a catalog exactly when it is one sequence from its first byte to its last and the
/// content of that sequence, and of each constructed value in it at any depth, is a list of
/// values.
pub proof fn law_catalogs_are_the_well_formed(data: Seq<u8>)
    ensures
        catalog_members(data) is Ok <==> {
            &&& data.len() > 0 && data[0] == 0x30
            &&& value_at(data, 0) matches Ok(Some((outer, next))) && next == data.len()
                && well_formed(outer.content, 0)
        },
{
    if data.len() > 0 && data[0] == 0x30 {
        if let Ok(Some((outer, next))) = value_at(data, 0) {
            lemma_walk_succeeds(outer.content, 0);
            if well_formed(outer.content, 0) {
                lemma_info_succeeds(outer.content);
            }
        }
    }
}

proof fn lemma_octets_are_digests(data: Seq<u8>, offset: int)
    requires
        0 <= offset,
    ensures
        forall|d: Seq<u8>| #[trigger] all_octets(data, offset).digests.contains(d) ==> is_digest(d),
        !all_octets(data, offset).found,
    decreases data.len() - offset,
{
    if offset < data.len() {
        if let Ok(Some((value, next))) = value_at(data, offset) {
            if value.constructed() {
                lemma_octets_are_digests(value.content, 0);
            }
            lemma_octets_are_digests(data, next);
        }
    }
}

proof fn lemma_following_are_digests(values: Seq<Value>, from: int)
    ensures
        forall|d: Seq<u8>| #[trigger]
            following_octets(values, from).digests.contains(d) ==> is_digest(d),
        !following_octets(values, from).found,
    decreases values.len() - from,
{
    if from < values.len() {
        lemma_octets_are_digests(values[from].content, 0);
        lemma_following_are_digests(values, from + 1);
    }
}

proof fn lemma_listed_are_digests(values: Seq<Value>, from: int)
    ensures
        forall|d: Seq<u8>| #[trigger]
            listed_members(values, from).digests.contains(d) ==> is_digest(d),
        !listed_members(values, from).found ==> listed_members(values, from).digests =~= Set::<
            Seq<u8>,
        >::empty(),
    decreases values.len() - from,
{
    if from < values.len() {
        lemma_following_are_digests(values, from + 1);
        lemma_listed_are_digests(values, from + 1);
    }
}

proof fn lemma_nested_are_digests(data: Seq<u8>, offset: int, from: int)
    requires
        0 <= offset,
        0 <= from,
    ensures
        forall|d: Seq<u8>| #[trigger]
            nested_members(data, offset, from).digests.contains(d) ==> is_digest(d),
        !nested_members(data, offset, from).found ==> nested_members(data, offset, from).digests
            =~= Set::<Seq<u8>>::empty(),
    decreases data.len() - offset, 0int, values_from(data, offset)->Ok_0.len() - from,
{
    let values = values_from(data, offset)->Ok_0;
    if values_from(data, offset) is Ok && from < values.len() {
        lemma_values_smaller(data, offset, from);
        lemma_walk_gathers_digests(values[from].content, 0);
        lemma_following_are_digests(values, from + 1);
        lemma_nested_are_digests(data, offset, from + 1);
    }
}

proof fn lemma_walk_gathers_digests(data: Seq<u8>, offset: int)
    requires
        0 <= offset,
    ensures
        forall|d: Seq<u8>| #[trigger] member_walk(data, offset).digests.contains(d) ==> is_digest(d),
        !member_walk(data, offset).found ==> member_walk(data, offset).digests =~= Set::<
            Seq<u8>,
        >::empty(),
    decreases data.len() - offset, 1int, 0int,
{
    if let Ok(values) = values_from(data, offset) {
        lemma_listed_are_digests(values, 0);
        lemma_nested_are_digests(data, offset, 0);
    }
}

proof fn lemma_nested_info_are_digests(data: Seq<u8>, from: int)
    requires
        0 <= from,
    ensures
        forall|d: Seq<u8>| #[trigger]
            nested_digest_info(data, from).digests.contains(d) ==> is_digest(d),
    decreases data.len(), 0int, values_from(data, 0)->Ok_0.len() - from,
{
    let values = values_from(data, 0)->Ok_0;
    if values_from(data, 0) is Ok && from < values.len() {
        lemma_values_smaller(data, 0, from);
        lemma_info_gathers_digests(values[from].content);
        lemma_nested_info_are_digests(data, from + 1);
    }
}

proof fn lemma_info_gathers_digests(data: Seq<u8>)
    ensures
        forall|d: Seq<u8>| #[trigger] digest_info(data).digests.contains(d) ==> is_digest(d),
    decreases data.len(), 1int, 0int,
{
    if let Ok(values) = values_from(data, 0) {
        lemma_nested_info_are_digests(data, 0);
        assert forall|d: Seq<u8>| #[trigger] labelled_digests(values).contains(d) implies is_digest(
            d,
        ) by {
            let i = choose|i: int| 0 <= i < values.len() && is_labelled_digest(values, i, d);
            assert(octet_digest(values[i]).contains(d));
        }
    }
}

/// Whatever a catalog lists has the length of a digest and does not begin with two zero bytes.
pub proof fn law_members_are_digests(data: Seq<u8>, digest: Seq<u8>)
    requires
        catalog_members(data) matches Ok(members) && members.contains(digest),
    ensures
        is_digest(digest),
{
    if let Ok(Some((outer, next))) = value_at(data, 0) {
        lemma_walk_gathers_digests(outer.content, 0);
        lemma_info_gathers_digests(outer.content);
    }
}

/// Where no member identifier occurs, a catalog lists just the digests that stand right behind
/// the hash that made them.
pub proof fn law_without_member_identifier(data: Seq<u8>)
    requires
        value_at(data, 0) matches Ok(Some((outer, _))) && !member_walk(outer.content, 0).found,
        catalog_members(data) is Ok,
    ensures
        value_at(data, 0) matches Ok(Some((outer, _))) ==> catalog_members(data) == Ok::<
            Set<Seq<u8>>,
            CatError,
        >(digest_info(outer.content).digests),
{
    if let Ok(Some((outer, next))) = value_at(data, 0) {
        lemma_walk_gathers_digests(outer.content, 0);
        assert(member_walk(outer.content, 0).digests.union(digest_info(outer.content).digests)
            =~= digest_info(outer.content).digests);
    }
}

proof fn lemma_following_holds(values: Seq<Value>, from: int, j: int, digest: Seq<u8>)
    requires
        0 <= from <= j < values.len(),
        values[j].constructed(),
        all_octets(values[j].content, 0).digests.contains(digest),
        following_octets(values, from).error is None,
    ensures
        following_octets(values, from).digests.contains(digest),
    decreases values.len() - from,
{
    if from < j {
        lemma_following_holds(values, from + 1, j, digest);
    }
}

proof fn lemma_listed_holds(values: Seq<Value>, from: int, i: int, j: int, digest: Seq<u8>)
    requires
        0 <= from <= i < j < values.len(),
        is_member_oid(values[i]),
        values[j].constructed(),
        all_octets(values[j].content, 0).digests.contains(digest),
        listed_members(values, from).error is None,
    ensures
        listed_members(values, from).digests.contains(digest),
    decreases values.len() - from,
{
    if from < i {
        lemma_listed_holds(values, from + 1, i, j, digest);
    } else {
        lemma_following_holds(values, from + 1, j, digest);
    }
}

/// `inner` is `data`, or the content of a constructed value in it, at any depth. (A value's
/// content is shorter than the data that list it.)
pub open spec fn holds_content(data: Seq<u8>, inner: Seq<u8>) -> bool
    decreases data.len(),
{
    data == inner || (values_from(data, 0) matches Ok(values) && exists|i: int|
        0 <= i < values.len() && (#[trigger] values[i]).constructed() && values[i].content.len()
            < data.len() && holds_content(values[i].content, inner))
}

proof fn lemma_nested_holds(data: Seq<u8>, from: int, i: int, digest: Seq<u8>)
    requires
        values_from(data, 0) is Ok,
        0 <= from <= i < values_from(data, 0)->Ok_0.len(),
        values_from(data, 0)->Ok_0[i].constructed(),
    ensures
        nested_members(data, 0, from).error is None && member_walk(
            values_from(data, 0)->Ok_0[i].content,
            0,
        ).digests.contains(digest) ==> nested_members(data, 0, from).digests.contains(digest),
        nested_members(data, 0, from).error is None ==> member_walk(
            values_from(data, 0)->Ok_0[i].content,
            0,
        ).error is None,
        nested_digest_info(data, from).error is None && digest_info(
            values_from(data, 0)->Ok_0[i].content,
        ).digests.contains(digest) ==> nested_digest_info(data, from).digests.contains(digest),
        nested_digest_info(data, from).error is None ==> digest_info(
            values_from(data, 0)->Ok_0[i].content,
        ).error is None,
    decreases i - from,
{
    if from < i {
        lemma_nested_holds(data, from + 1, i, digest);
    }
}

proof fn lemma_members_at_depth(data: Seq<u8>, inner: Seq<u8>, i: int, j: int, digest: Seq<u8>)
    requires
        member_walk(data, 0).error is None,
        holds_content(data, inner),
        values_from(inner, 0) matches Ok(values) && 0 <= i < j < values.len() && is_member_oid(
            values[i],
        ) && values[j].constructed() && all_octets(values[j].content, 0).digests.contains(digest),
    ensures
        member_walk(data, 0).digests.contains(digest),
    decreases data.len(),
{
    let values = values_from(data, 0)->Ok_0;
    if data == inner {
        lemma_listed_holds(values, 0, i, j, digest);
    } else {
        let k = choose|k: int|
            0 <= k < values.len() && (#[trigger] values[k]).constructed() && values[k].content.len()
                < data.len() && holds_content(values[k].content, inner);
        lemma_nested_holds(data, 0, k, digest);
        lemma_members_at_depth(values[k].content, inner, i, j, digest);
    }
}

proof fn lemma_labelled_at_depth(data: Seq<u8>, inner: Seq<u8>, digest: Seq<u8>)
    requires
        digest_info(data).error is None,
        holds_content(data, inner),
        values_from(inner, 0) matches Ok(values) && labelled_digests(values).contains(digest),
    ensures
        digest_info(data).digests.contains(digest),
    decreases data.len(),
{
    let values = values_from(data, 0)->Ok_0;
    if data != inner {
        let k = choose|k: int|
            0 <= k < values.len() && (#[trigger] values[k]).constructed() && values[k].content.len()
                < data.len() && holds_content(values[k].content, inner);
        lemma_nested_holds(data, 0, k, digest);
        lemma_labelled_at_depth(values[k].content, inner, digest);
    }
}

/// Where a member identifier stands among values at any depth of a catalog, every digest in an
/// octet string at any depth of a constructed value behind it is a member.
pub proof fn law_members_follow_the_identifier(
    data: Seq<u8>,
    inner: Seq<u8>,
    i: int,
    j: int,
    digest: Seq<u8>,
)
    requires
        catalog_members(data) is Ok,
        value_at(data, 0) matches Ok(Some((outer, _))) && holds_content(outer.content, inner),
        values_from(inner, 0) matches Ok(values) && 0 <= i < j < values.len() && is_member_oid(
            values[i],
        ) && values[j].constructed() && all_octets(values[j].content, 0).digests.contains(digest),
    ensures
        catalog_members(data)->Ok_0.contains(digest),
{
    if let Ok(Some((outer, _))) = value_at(data, 0) {
        lemma_members_at_depth(outer.content, inner, i, j, digest);
    }
}

/// A digest that stands right behind the hash that made it, at any depth of a catalog, is a
/// member.
pub proof fn law_labelled_digests_are_members(data: Seq<u8>, inner: Seq<u8>, digest: Seq<u8>)
    requires
        catalog_members(data) is Ok,
        value_at(data, 0) matches Ok(Some((outer, _))) && holds_content(outer.content, inner),
        values_from(inner, 0) matches Ok(values) && labelled_digests(values).contains(digest),
    ensures
        catalog_members(data)->Ok_0.contains(digest),
{
    if let Ok(Some((outer, _))) = value_at(data, 0) {
        lemma_labelled_at_depth(outer.content, inner, digest);
    }
}

/// Among what `data` lists from `offset` on, at any depth, is an octet string with the content
/// `digest`. (A value's content is shorter than the data that list it.)
pub open spec fn holds_octets(data: Seq<u8>, offset: int, digest: Seq<u8>) -> bool
    decreases data.len() - offset,
{
    values_from(data, offset) matches Ok(values) && exists|i: int|
        0 <= i < values.len() && {
            ||| (#[trigger] values[i]).tag == 0x04 && values[i].content == digest
            ||| values[i].constructed() && values[i].content.len() < data.len() - offset
                && holds_octets(values[i].content, 0, digest)
        }
}

proof fn lemma_octets_are_there(data: Seq<u8>, offset: int, digest: Seq<u8>)
    requires
        0 <= offset,
        well_formed(data, offset),
        all_octets(data, offset).digests.contains(digest),
    ensures
        holds_octets(data, offset, digest),
    decreases data.len() - offset,
{
    lemma_well_formed_step(data, offset);
    if let Ok(Some((value, next))) = value_at(data, offset) {
        let rest = values_from(data, next)->Ok_0;
        let values = values_from(data, offset)->Ok_0;
        assert(values == seq![value] + rest);
        assert(values[0] == value);
        if octet_digest(value).contains(digest) {
        } else if value.constructed() && all_octets(value.content, 0).digests.contains(digest) {
            lemma_octets_are_there(value.content, 0, digest);
        } else {
            lemma_octets_are_there(data, next, digest);
            let i = choose|i: int|
                0 <= i < rest.len() && {
                    ||| (#[trigger] rest[i]).tag == 0x04 && rest[i].content == digest
                    ||| rest[i].constructed() && rest[i].content.len() < data.len() - next
                        && holds_octets(rest[i].content, 0, digest)
                };
            assert(values[i + 1] == rest[i]);
        }
    }
}

proof fn lemma_following_are_there(values: Seq<Value>, from: int, digest: Seq<u8>) -> (i: int)
    requires
        0 <= from,
        forall|i: int|
            0 <= i < values.len() && (#[trigger] values[i]).constructed() ==> well_formed(
                values[i].content,
                0,
            ),
        following_octets(values, from).digests.contains(digest),
    ensures
        0 <= i < values.len(),
        values[i].constructed(),
        holds_octets(values[i].content, 0, digest),
    decreases values.len() - from,
{
    if values[from].constructed() && all_octets(values[from].content, 0).digests.contains(digest) {
        lemma_octets_are_there(values[from].content, 0, digest);
        from
    } else {
        lemma_following_are_there(values, from + 1, digest)
    }
}

proof fn lemma_listed_are_there(values: Seq<Value>, from: int, digest: Seq<u8>) -> (i: int)
    requires
        0 <= from,
        forall|i: int|
            0 <= i < values.len() && (#[trigger] values[i]).constructed() ==> well_formed(
                values[i].content,
                0,
            ),
        listed_members(values, from).digests.contains(digest),
    ensures
        0 <= i < values.len(),
        values[i].constructed(),
        holds_octets(values[i].content, 0, digest),
    decreases values.len() - from,
{
    if is_member_oid(values[from]) && following_octets(values, from + 1).digests.contains(digest) {
        lemma_following_are_there(values, from + 1, digest)
    } else {
        lemma_listed_are_there(values, from + 1, digest)
    }
}

proof fn lemma_nested_are_there(data: Seq<u8>, from: int, digest: Seq<u8>)
    requires
        0 <= from,
        well_formed(data, 0),
        nested_members(data, 0, from).digests.contains(digest),
    ensures
        holds_octets(data, 0, digest),
    decreases data.len(), 0int, values_from(data, 0)->Ok_0.len() - from,
{
    let values = values_from(data, 0)->Ok_0;
    lemma_contents_well_formed(data);
    lemma_values_smaller(data, 0, from);
    if values[from].constructed() && member_walk(values[from].content, 0).digests.contains(digest) {
        lemma_walk_is_there(values[from].content, digest);
    } else if values[from].constructed() && member_walk(values[from].content, 0).found
        && following_octets(values, from + 1).digests.contains(digest) {
        let i = lemma_following_are_there(values, from + 1, digest);
        lemma_values_smaller(data, 0, i);
    } else {
        lemma_nested_are_there(data, from + 1, digest);
    }
}

proof fn lemma_walk_is_there(data: Seq<u8>, digest: Seq<u8>)
    requires
        well_formed(data, 0),
        member_walk(data, 0).digests.contains(digest),
    ensures
        holds_octets(data, 0, digest),
    decreases data.len(), 1int, 0int,
{
    let values = values_from(data, 0)->Ok_0;
    lemma_contents_well_formed(data);
    if listed_members(values, 0).digests.contains(digest) {
        let i = lemma_listed_are_there(values, 0, digest);
        lemma_values_smaller(data, 0, i);
    } else {
        lemma_nested_are_there(data, 0, digest);
    }
}

proof fn lemma_contents_well_formed(data: Seq<u8>)
    requires
        well_formed(data, 0),
    ensures
        forall|i: int|
            0 <= i < values_from(data, 0)->Ok_0.len() && (#[trigger] values_from(
                data,
                0,
            )->Ok_0[i]).constructed() ==> well_formed(values_from(data, 0)->Ok_0[i].content, 0),
{
    assert forall|i: int|
        0 <= i < values_from(data, 0)->Ok_0.len() && (#[trigger] values_from(
            data,
            0,
        )->Ok_0[i]).constructed() implies well_formed(values_from(data, 0)->Ok_0[i].content, 0) by {
        lemma_values_smaller(data, 0, i);
    }
}

proof fn lemma_nested_info_is_there(data: Seq<u8>, from: int, digest: Seq<u8>)
    requires
        0 <= from,
        well_formed(data, 0),
        nested_digest_info(data, from).digests.contains(digest),
    ensures
        holds_octets(data, 0, digest),
    decreases data.len(), 0int, values_from(data, 0)->Ok_0.len() - from,
{
    let values = values_from(data, 0)->Ok_0;
    lemma_contents_well_formed(data);
    lemma_values_smaller(data, 0, from);
    if values[from].constructed() && digest_info(values[from].content).digests.contains(digest) {
        lemma_info_is_there(values[from].content, digest);
    } else {
        lemma_nested_info_is_there(data, from + 1, digest);
    }
}

proof fn lemma_info_is_there(data: Seq<u8>, digest: Seq<u8>)
    requires
        well_formed(data, 0),
        digest_info(data).digests.contains(digest),
    ensures
        holds_octets(data, 0, digest),
    decreases data.len(), 1int, 0int,
{
    let values = values_from(data, 0)->Ok_0;
    if labelled_digests(values).contains(digest) {
        let i = choose|i: int| 0 <= i < values.len() && is_labelled_digest(values, i, digest);
        assert(values[i].tag == 0x04 && values[i].content == digest);
    } else {
        lemma_nested_info_is_there(data, 0, digest);
    }
}

/// Nothing is made up: every member of a catalog is the content of an octet string in it.
pub proof fn law_members_are_octet_strings(data: Seq<u8>, digest: Seq<u8>)
    requires
        catalog_members(data) matches Ok(members) && members.contains(digest),
    ensures
        value_at(data, 0) matches Ok(Some((outer, _))) && holds_octets(outer.content, 0, digest),
{
    law_catalogs_are_the_well_formed(data);
    if let Ok(Some((outer, _))) = value_at(data, 0) {
        if member_walk(outer.content, 0).digests.contains(digest) {
            lemma_walk_is_there(outer.content, digest);
        } else {
            lemma_info_is_there(outer.content, digest);
        }
    }
}

proof fn lemma_octets_are_gathered(data: Seq<u8>, offset: int, digest: Seq<u8>)
    requires
        0 <= offset,
        well_formed(data, offset),
        holds_octets(data, offset, digest),
        is_digest(digest),
    ensures
        all_octets(data, offset).digests.contains(digest),
    decreases data.len() - offset,
{
    lemma_octets_succeed(data, offset);
    if offset < data.len() {
        lemma_well_formed_step(data, offset);
        if let Ok(Some((value, next))) = value_at(data, offset) {
            let rest = values_from(data, next)->Ok_0;
            let values = values_from(data, offset)->Ok_0;
            assert(values == seq![value] + rest);
            let i = choose|i: int|
                0 <= i < values.len() && {
                    ||| (#[trigger] values[i]).tag == 0x04 && values[i].content == digest
                    ||| values[i].constructed() && values[i].content.len() < data.len() - offset
                        && holds_octets(values[i].content, 0, digest)
                };
            if value.constructed() {
                lemma_octets_succeed(value.content, 0);
            }
            if i == 0 {
                assert(values[0] == value);
                if value.tag == 0x04 && value.content == digest {
                    assert(octet_digest(value).contains(digest));
                } else {
                    lemma_octets_are_gathered(value.content, 0, digest);
                }
            } else {
                assert(rest[i - 1] == values[i]);
                lemma_values_smaller(data, next, i - 1);
                assert(holds_octets(data, next, digest));
                lemma_octets_are_gathered(data, next, digest);
            }
        }
    }
}

/// What the octet strings of well-formed data give is every digest among them, at any depth.
proof fn lemma_octets_direct(data: Seq<u8>, digest: Seq<u8>)
    requires
        well_formed(data, 0),
    ensures
        all_octets(data, 0).digests.contains(digest) <==> is_digest(digest) && holds_octets(
            data,
            0,
            digest,
        ),
{
    lemma_octets_are_digests(data, 0);
    if all_octets(data, 0).digests.contains(digest) {
        lemma_octets_are_there(data, 0, digest);
    }
    if is_digest(digest) && holds_octets(data, 0, digest) {
        lemma_octets_are_gathered(data, 0, digest);
    }
}

/// The member identifier is among the values that `data` lists, at any depth. (A value's content is
/// shorter than the data that list it.)
pub open spec fn holds_identifier(data: Seq<u8>) -> bool
    decreases data.len(),
{
    values_from(data, 0) matches Ok(values) && exists|i: int|
        0 <= i < values.len() && {
            ||| (#[trigger] values[i]).tag == 0x06 && values[i].content == MEMBER2_OID@
            ||| values[i].constructed() && values[i].content.len() < data.len()
                && holds_identifier(values[i].content)
        }
}

/// A value is the member identifier, or holds it at some depth.
pub open spec fn introduces(value: Value) -> bool {
    value.tag == 0x06 && value.content == MEMBER2_OID@ || value.constructed() && holds_identifier(
        value.content,
    )
}

/// An octet string with the content `digest` is in `value`, at some depth.
pub open spec fn encloses(value: Value, digest: Seq<u8>) -> bool {
    value.constructed() && holds_octets(value.content, 0, digest)
}

/// At some depth of `data`, an octet string with the content `digest` is inside a constructed value
/// that stands behind another which is, or holds, the member identifier. (A value's content is
/// shorter than the data that list it.)
pub open spec fn is_listed(data: Seq<u8>, digest: Seq<u8>) -> bool
    decreases data.len(),
{
    values_from(data, 0) matches Ok(values) && {
        ||| exists|i: int, j: int|
            0 <= i < j < values.len() && introduces(#[trigger] values[i]) && encloses(
                #[trigger] values[j],
                digest,
            )
        ||| exists|i: int|
            0 <= i < values.len() && (#[trigger] values[i]).constructed()
                && values[i].content.len() < data.len() && is_listed(values[i].content, digest)
    }
}

/// A value is the identifier of SHA-1 or of SHA-256.
pub open spec fn identifies_hash(value: Value) -> bool {
    value.tag == 0x06 && (value.content == SHA1_OID@ || value.content == SHA256_OID@)
}

/// A value is a sequence of values, among which are the identifier of SHA-1 or of SHA-256 and an
/// empty null.
pub open spec fn describes_hash(value: Value) -> bool {
    value.tag == 0x30 && (values_from(value.content, 0) matches Ok(values) && (exists|i: int|
        0 <= i < values.len() && identifies_hash(#[trigger] values[i])) && (exists|i: int|
        0 <= i < values.len() && (#[trigger] values[i]).tag == 0x05 && values[i].content
            == Seq::<u8>::empty()))
}

/// The bytes have the length of a SHA-1 or a SHA-256 hash and do not begin with two zero bytes.
pub open spec fn could_be_hash(bytes: Seq<u8>) -> bool {
    (bytes.len() == 20 || bytes.len() == 32) && (bytes[0] != 0 || bytes[1] != 0)
}

/// Among `values`, an octet string with the content `digest` stands right behind a sequence that
/// describes a hash, or right behind the identifier of one and an empty null.
pub open spec fn stands_labelled(values: Seq<Value>, digest: Seq<u8>) -> bool {
    could_be_hash(digest) && exists|i: int|
        0 < i < values.len() && (#[trigger] values[i]).tag == 0x04 && values[i].content == digest
            && (describes_hash(values[i - 1]) || i >= 2 && identifies_hash(values[i - 2]) && values[i
            - 1].tag == 0x05 && values[i - 1].content == Seq::<u8>::empty())
}

proof fn lemma_labels(values: Seq<Value>, digest: Seq<u8>)
    ensures
        labelled_digests(values).contains(digest) <==> stands_labelled(values, digest),
{
    assert forall|v: Value| #[trigger] is_null(v) <==> v.tag == 0x05 && v.content == Seq::<
        u8,
    >::empty() by {
        if v.content.len() == 0 {
            assert(v.content =~= Seq::<u8>::empty());
        }
    }
    assert forall|v: Value| #[trigger] is_hash_algorithm(v) <==> describes_hash(v) by {
        if values_from(v.content, 0) is Ok {
            let inner = values_from(v.content, 0)->Ok_0;
            if is_hash_algorithm(v) {
                let a = choose|a: int| 0 <= a < inner.len() && is_hash_oid(#[trigger] inner[a]);
                let b = choose|b: int| 0 <= b < inner.len() && is_null(#[trigger] inner[b]);
                assert(identifies_hash(inner[a]));
                assert(inner[b].tag == 0x05);
            }
            if describes_hash(v) {
                let a = choose|a: int| 0 <= a < inner.len() && identifies_hash(#[trigger] inner[a]);
                let b = choose|b: int|
                    0 <= b < inner.len() && (#[trigger] inner[b]).tag == 0x05 && inner[b].content
                        == Seq::<u8>::empty();
                assert(is_hash_oid(inner[a]));
                assert(is_null(inner[b]));
            }
        }
    }
    if labelled_digests(values).contains(digest) {
        let i = choose|i: int| 0 <= i < values.len() && is_labelled_digest(values, i, digest);
        assert(octet_digest(values[i]).contains(digest));
        assert(values[i].tag == 0x04);
        if i >= 2 {
            assert(is_null(values[i - 1]) <==> values[i - 1].tag == 0x05 && values[i - 1].content
                == Seq::<u8>::empty());
        }
    }
    if stands_labelled(values, digest) {
        let i = choose|i: int|
            0 < i < values.len() && (#[trigger] values[i]).tag == 0x04 && values[i].content
                == digest && (describes_hash(values[i - 1]) || i >= 2 && identifies_hash(
                values[i - 2],
            ) && values[i - 1].tag == 0x05 && values[i - 1].content == Seq::<u8>::empty());
        assert(octet_digest(values[i]).contains(digest));
        assert(is_hash_algorithm(values[i - 1]) <==> describes_hash(values[i - 1]));
        if i >= 2 {
            assert(is_null(values[i - 1]) <==> values[i - 1].tag == 0x05 && values[i - 1].content
                == Seq::<u8>::empty());
        }
        assert(is_labelled_digest(values, i, digest));
    }
}

/// At some depth of `data`, `digest` stands right behind the hash that made it. (A value's content
/// is shorter than the data that list it.)
pub open spec fn is_labelled(data: Seq<u8>, digest: Seq<u8>) -> bool
    decreases data.len(),
{
    values_from(data, 0) matches Ok(values) && {
        ||| stands_labelled(values, digest)
        ||| exists|i: int|
            0 <= i < values.len() && (#[trigger] values[i]).constructed()
                && values[i].content.len() < data.len() && is_labelled(values[i].content, digest)
    }
}

/// The contents of the constructed ones of `values` are well formed.
spec fn contents_well_formed(values: Seq<Value>) -> bool {
    forall|i: int|
        0 <= i < values.len() && (#[trigger] values[i]).constructed() ==> well_formed(
            values[i].content,
            0,
        )
}

proof fn lemma_following_direct(values: Seq<Value>, from: int, digest: Seq<u8>)
    requires
        0 <= from,
        contents_well_formed(values),
    ensures
        following_octets(values, from).digests.contains(digest) <==> is_digest(digest) && exists|
            j: int,
        |
            from <= j < values.len() && encloses(#[trigger] values[j], digest),
    decreases values.len() - from,
{
    lemma_following_succeed(values, from);
    if from < values.len() {
        lemma_following_direct(values, from + 1, digest);
        lemma_following_succeed(values, from + 1);
        if values[from].constructed() {
            lemma_octets_succeed(values[from].content, 0);
            lemma_octets_direct(values[from].content, digest);
        }
    }
}

proof fn lemma_listed_direct(values: Seq<Value>, from: int, digest: Seq<u8>)
    requires
        0 <= from,
        contents_well_formed(values),
    ensures
        listed_members(values, from).found <==> exists|i: int|
            from <= i < values.len() && is_member_oid(#[trigger] values[i]),
        listed_members(values, from).digests.contains(digest) <==> is_digest(digest) && exists|
            i: int,
            j: int,
        |
            from <= i < j < values.len() && is_member_oid(#[trigger] values[i]) && encloses(
                #[trigger] values[j],
                digest,
            ),
    decreases values.len() - from,
{
    lemma_listed_succeed(values, from);
    if from < values.len() {
        lemma_listed_direct(values, from + 1, digest);
        lemma_listed_succeed(values, from + 1);
        lemma_following_succeed(values, from + 1);
        lemma_following_direct(values, from + 1, digest);
        lemma_following_are_digests(values, from + 1);
    }
}

proof fn lemma_nested_direct(data: Seq<u8>, from: int, digest: Seq<u8>)
    requires
        0 <= from,
        well_formed(data, 0),
    ensures
        nested_members(data, 0, from).found <==> exists|i: int|
            from <= i < values_from(data, 0)->Ok_0.len() && (#[trigger] values_from(
                data,
                0,
            )->Ok_0[i]).constructed() && holds_identifier(values_from(data, 0)->Ok_0[i].content),
        nested_members(data, 0, from).digests.contains(digest) <==> is_digest(digest) && ((exists|
            i: int,
            j: int,
        |
            from <= i < j < values_from(data, 0)->Ok_0.len() && (#[trigger] values_from(
                data,
                0,
            )->Ok_0[i]).constructed() && holds_identifier(values_from(data, 0)->Ok_0[i].content)
                && encloses(#[trigger] values_from(data, 0)->Ok_0[j], digest)) || (exists|i: int|
            from <= i < values_from(data, 0)->Ok_0.len() && (#[trigger] values_from(
                data,
                0,
            )->Ok_0[i]).constructed() && is_listed(values_from(data, 0)->Ok_0[i].content, digest))),
    decreases data.len(), 0int, values_from(data, 0)->Ok_0.len() - from,
{
    let values = values_from(data, 0)->Ok_0;
    lemma_contents_well_formed(data);
    lemma_nested_succeed(data, 0, from);
    if from < values.len() {
        lemma_values_smaller(data, 0, from);
        lemma_nested_direct(data, from + 1, digest);
        lemma_nested_succeed(data, 0, from + 1);
        lemma_following_succeed(values, from + 1);
        lemma_following_direct(values, from + 1, digest);
        lemma_following_are_digests(values, from + 1);
        let here = values[from];
        if here.constructed() {
            lemma_walk_succeeds(here.content, 0);
            lemma_walk_direct(here.content, digest);
        }
    }
}

proof fn lemma_walk_direct(data: Seq<u8>, digest: Seq<u8>)
    requires
        well_formed(data, 0),
    ensures
        member_walk(data, 0).found <==> holds_identifier(data),
        member_walk(data, 0).digests.contains(digest) <==> is_digest(digest) && is_listed(
            data,
            digest,
        ),
    decreases data.len(), 1int, 0int,
{
    let values = values_from(data, 0)->Ok_0;
    lemma_contents_well_formed(data);
    lemma_walk_succeeds(data, 0);
    lemma_listed_succeed(values, 0);
    lemma_listed_direct(values, 0, digest);
    lemma_nested_direct(data, 0, digest);
    assert forall|i: int| 0 <= i < values.len() implies (#[trigger] values[i]).content.len()
        < data.len() by {
        lemma_values_smaller(data, 0, i);
    }
}

proof fn lemma_nested_info_direct(data: Seq<u8>, from: int, digest: Seq<u8>)
    requires
        0 <= from,
        well_formed(data, 0),
    ensures
        nested_digest_info(data, from).digests.contains(digest) <==> exists|i: int|
            from <= i < values_from(data, 0)->Ok_0.len() && (#[trigger] values_from(
                data,
                0,
            )->Ok_0[i]).constructed() && is_labelled(values_from(data, 0)->Ok_0[i].content, digest),
    decreases data.len(), 0int, values_from(data, 0)->Ok_0.len() - from,
{
    let values = values_from(data, 0)->Ok_0;
    lemma_contents_well_formed(data);
    lemma_nested_info_succeeds(data, from);
    if from < values.len() {
        lemma_values_smaller(data, 0, from);
        lemma_nested_info_direct(data, from + 1, digest);
        lemma_nested_info_succeeds(data, from + 1);
        if values[from].constructed() {
            lemma_info_succeeds(values[from].content);
            lemma_info_direct(values[from].content, digest);
        }
    }
}

proof fn lemma_info_direct(data: Seq<u8>, digest: Seq<u8>)
    requires
        well_formed(data, 0),
    ensures
        digest_info(data).digests.contains(digest) <==> is_labelled(data, digest),
    decreases data.len(), 1int, 0int,
{
    let values = values_from(data, 0)->Ok_0;
    lemma_labels(values, digest);
    lemma_nested_info_direct(data, 0, digest);
    assert forall|i: int| 0 <= i < values.len() implies (#[trigger] values[i]).content.len()
        < data.len() by {
        lemma_values_smaller(data, 0, i);
    }
}

/// What is listed from `offset` on is what the data from there on list.
proof fn lemma_values_skip(data: Seq<u8>, offset: int, at: int)
    requires
        0 <= offset <= at <= data.len(),
        values_from(data, at) is Ok,
    ensures
        values_from(data.skip(offset), at - offset) == values_from(data, at),
    decreases data.len() - at,
{
    let rest = data.skip(offset);
    if at < data.len() {
        if let Ok(Some((value, next))) = value_at(data, at) {
            let first = data[at + 1];
            let start = if first < 0x80 {
                at + 2
            } else {
                at + 2 + (first - 0x80)
            };
            assert(rest[at - offset] == data[at] && rest[at - offset + 1] == first);
            assert(rest.subrange(at - offset + 2, start - offset) =~= data.subrange(at + 2, start));
            assert(rest.subrange(start - offset, next - offset) =~= data.subrange(start, next));
            assert(value_at(rest, at - offset) == Ok::<Option<(Value, int)>, AsnError>(
                Some((value, next - offset)),
            ));
            lemma_values_skip(data, offset, next);
        }
    }
}

proof fn lemma_nested_skip(data: Seq<u8>, offset: int, from: int)
    requires
        0 <= offset <= data.len(),
        0 <= from,
        values_from(data, offset) is Ok,
    ensures
        nested_members(data.skip(offset), 0, from) == nested_members(data, offset, from),
    decreases values_from(data, offset)->Ok_0.len() - from,
{
    lemma_values_skip(data, offset, offset);
    if from < values_from(data, offset)->Ok_0.len() {
        lemma_values_smaller(data, offset, from);
        lemma_values_smaller(data.skip(offset), 0, from);
        lemma_nested_skip(data, offset, from + 1);
    }
}

/// The walk over octet strings succeeds exactly on well-formed data, and then gathers every digest
/// that is the content of an octet string, at any depth, and no other.
pub proof fn law_octets_are_those_held(data: Seq<u8>, digest: Seq<u8>)
    ensures
        all_octets(data, 0).error is None <==> well_formed(data, 0),
        well_formed(data, 0) ==> (all_octets(data, 0).digests.contains(digest) <==> is_digest(digest)
            && holds_octets(data, 0, digest)),
{
    lemma_octets_succeed(data, 0);
    if well_formed(data, 0) {
        lemma_octets_direct(data, digest);
    }
}

/// The walk for members succeeds exactly where the data are well formed from `offset` on. It then
/// finds the member identifier exactly if it stands there at some depth, and gathers every digest
/// inside a constructed value behind another which is, or holds, the identifier, and no other.
pub proof fn law_the_walk_gathers_what_is_listed(data: Seq<u8>, offset: int, digest: Seq<u8>)
    requires
        0 <= offset <= data.len(),
    ensures
        member_walk(data, offset).error is None <==> well_formed(data, offset),
        well_formed(data, offset) ==> {
            &&& member_walk(data, offset).found <==> holds_identifier(data.skip(offset))
            &&& member_walk(data, offset).digests.contains(digest) <==> is_digest(digest)
                && is_listed(data.skip(offset), digest)
        },
{
    lemma_walk_succeeds(data, offset);
    if well_formed(data, offset) {
        let rest = data.skip(offset);
        lemma_values_skip(data, offset, offset);
        lemma_nested_skip(data, offset, 0);
        assert(member_walk(rest, 0) == member_walk(data, offset));
        lemma_walk_succeeds(rest, 0);
        lemma_walk_direct(rest, digest);
    }
}

/// The walk for labelled digests succeeds exactly on well-formed data, and then gathers every digest
/// that stands right behind the hash that made it, at any depth, and no other.
pub proof fn law_digest_info_is_what_is_labelled(data: Seq<u8>, digest: Seq<u8>)
    ensures
        digest_info(data).error is None <==> well_formed(data, 0),
        well_formed(data, 0) ==> (digest_info(data).digests.contains(digest) <==> is_labelled(
            data,
            digest,
        )),
{
    lemma_info_succeeds(data);
    if well_formed(data, 0) {
        lemma_info_direct(data, digest);
    }
}

/// The members of a catalog are the digests that are inside a constructed value behind another which
/// is, or holds, the member identifier, at any depth, and those that stand right behind the hash
/// that made them, at any depth; and no others.
pub proof fn law_members_are_those_listed_or_labelled(data: Seq<u8>, digest: Seq<u8>)
    requires
        catalog_members(data) is Ok,
    ensures
        value_at(data, 0) matches Ok(Some((outer, _))) && (catalog_members(data)->Ok_0.contains(
            digest,
        ) <==> could_be_hash(digest) && (is_listed(outer.content, digest) || is_labelled(
            outer.content,
            digest,
        ))),
{
    law_catalogs_are_the_well_formed(data);
    if let Ok(Some((outer, _))) = value_at(data, 0) {
        lemma_walk_direct(outer.content, digest);
        lemma_info_direct(outer.content, digest);
        lemma_info_gathers_digests(outer.content);
    }
}

/// Both hashes label: where, at any depth of a catalog, a sequence of the identifier of SHA-1 or of
/// SHA-256 and an empty null is directly followed by an octet string that could be a hash, that is a
/// member.
pub proof fn law_both_hashes_label(
    data: Seq<u8>,
    inner: Seq<u8>,
    i: int,
    identifier: Seq<u8>,
    digest: Seq<u8>,
)
    requires
        catalog_members(data) is Ok,
        value_at(data, 0) matches Ok(Some((outer, _))) && holds_content(outer.content, inner),
        values_from(inner, 0) matches Ok(values) && 0 <= i < values.len() - 1 && values[i].tag
            == 0x30 && values_from(values[i].content, 0) == Ok::<Seq<Value>, AsnError>(
            seq![
                Value { tag: 0x06, content: identifier },
                Value { tag: 0x05, content: Seq::empty() },
            ],
        ) && values[i + 1] == (Value { tag: 0x04, content: digest }),
        identifier == SHA1_OID@ || identifier == SHA256_OID@,
        could_be_hash(digest),
    ensures
        catalog_members(data)->Ok_0.contains(digest),
{
    let values = values_from(inner, 0)->Ok_0;
    let described = values_from(values[i].content, 0)->Ok_0;
    assert(identifies_hash(described[0]));
    assert(described[1].tag == 0x05);
    assert(describes_hash(values[i]));
    assert(values[i + 1].tag == 0x04);
    assert(stands_labelled(values, digest));
    lemma_labels(values, digest);
    law_labelled_digests_are_members(data, inner, digest);
}

/// Where, at any depth of a catalog, the identifier of SHA-1 or of SHA-256, an empty null and an octet
/// string that could be a hash stand one behind another, that is a member.
pub proof fn law_both_hashes_label_without_a_sequence(
    data: Seq<u8>,
    inner: Seq<u8>,
    i: int,
    identifier: Seq<u8>,
    digest: Seq<u8>,
)
    requires
        catalog_members(data) is Ok,
        value_at(data, 0) matches Ok(Some((outer, _))) && holds_content(outer.content, inner),
        values_from(inner, 0) matches Ok(values) && 0 <= i < values.len() - 2 && values[i] == (
        Value { tag: 0x06, content: identifier }) && values[i + 1] == (Value {
            tag: 0x05,
            content: Seq::empty(),
        }) && values[i + 2] == (Value { tag: 0x04, content: digest }),
        identifier == SHA1_OID@ || identifier == SHA256_OID@,
        could_be_hash(digest),
    ensures
        catalog_members(data)->Ok_0.contains(digest),
{
    let values = values_from(inner, 0)->Ok_0;
    assert(values[i + 2].tag == 0x04);
    assert(identifies_hash(values[i + 2 - 2]));
    assert(stands_labelled(values, digest));
    lemma_labels(values, digest);
    law_labelled_digests_are_members(data, inner, digest);
}

/// Where, at any depth of a catalog, the member identifier stands, and behind it, not necessarily
/// directly, a constructed value that holds an octet string which could be a hash, that is a member.
pub proof fn law_members_stand_behind_the_identifier(
    data: Seq<u8>,
    inner: Seq<u8>,
    i: int,
    j: int,
    digest: Seq<u8>,
)
    requires
        catalog_members(data) is Ok,
        value_at(data, 0) matches Ok(Some((outer, _))) && holds_content(outer.content, inner),
        values_from(inner, 0) matches Ok(values) && 0 <= i < j < values.len() && values[i] == (
        Value { tag: 0x06, content: MEMBER2_OID@ }) && (values[j].tag / 32) % 2 == 1 && holds_octets(
            values[j].content,
            0,
            digest,
        ),
        could_be_hash(digest),
    ensures
        catalog_members(data)->Ok_0.contains(digest),
{
    let values = values_from(inner, 0)->Ok_0;
    law_catalogs_are_the_well_formed(data);
    law_constructed_is_a_bit_of_the_tag(values[j].tag, values[j].content);
    let outer = value_at(data, 0)->Ok_0->Some_0.0;
    lemma_held_well_formed(outer.content, inner);
    lemma_contents_well_formed(inner);
    lemma_octets_direct(values[j].content, digest);
    law_members_follow_the_identifier(data, inner, i, j, digest);
}

proof fn lemma_held_well_formed(data: Seq<u8>, inner: Seq<u8>)
    requires
        well_formed(data, 0),
        holds_content(data, inner),
    ensures
        well_formed(inner, 0),
    decreases data.len(),
{
    if data != inner {
        let values = values_from(data, 0)->Ok_0;
        let k = choose|k: int|
            0 <= k < values.len() && (#[trigger] values[k]).constructed() && values[k].content.len()
                < data.len() && holds_content(values[k].content, inner);
        lemma_held_well_formed(values[k].content, inner);
    }
}

/// A digest is taken from just those bytes that could be a hash, and is them.
pub proof fn law_digests_could_be_hashes(bytes: Seq<u8>)
    ensures
        is_digest(bytes) <==> could_be_hash(bytes),
{
}

/// A value is taken for the description of a hash exactly if it is a sequence, its content is a list of
/// values, and among them are the identifier of SHA-1 or of SHA-256 and an empty null, in any order.
pub proof fn law_what_describes_a_hash(value: Value)
    ensures
        is_hash_algorithm(value) <==> describes_hash(value),
{
    if values_from(value.content, 0) is Ok {
        let inner = values_from(value.content, 0)->Ok_0;
        assert forall|i: int| 0 <= i < inner.len() implies {
            &&& is_hash_oid(#[trigger] inner[i]) <==> identifies_hash(inner[i])
            &&& is_null(inner[i]) <==> inner[i].tag == 0x05 && inner[i].content == Seq::<
                u8,
            >::empty()
        } by {
            if inner[i].content.len() == 0 {
                assert(inner[i].content =~= Seq::<u8>::empty());
            }
        }
    }
}

/// Why a file is no catalog: it does not begin with the tag of a sequence; or it is a sequence and
/// something behind it; or else what is wrong with the sequence, or with a list of values in it.
pub proof fn law_why_a_file_is_no_catalog(data: Seq<u8>)
    ensures
        catalog_members(data) == Err::<Set<Seq<u8>>, CatError>(CatError::NotASequence)
            <==> data.len() == 0 || data[0] != 0x30,
        catalog_members(data) == Err::<Set<Seq<u8>>, CatError>(CatError::InvalidOuter)
            <==> data.len() > 0 && data[0] == 0x30 && (value_at(data, 0) matches Ok(Some((_, next)))
            && next != data.len()),
        data.len() > 0 && data[0] == 0x30 && value_at(data, 0) is Err ==> catalog_members(data)
            == Err::<Set<Seq<u8>>, CatError>(CatError::Asn(value_at(data, 0)->Err_0)),
        catalog_members(data) matches Err(CatError::Asn(e)) ==> data.len() > 0 && data[0] == 0x30
            && match value_at(data, 0) {
            Err(outer) => e == outer,
            Ok(Some((outer, next))) => next == data.len() && !well_formed(outer.content, 0),
            Ok(None) => false,
        },
        data.len() > 0 && data[0] == 0x30 && (value_at(data, 0) matches Ok(Some((outer, next)))
            && next == data.len() && values_from(outer.content, 0) is Err) ==> catalog_members(data)
            == Err::<Set<Seq<u8>>, CatError>(
            CatError::Asn(values_from(value_at(data, 0)->Ok_0->Some_0.0.content, 0)->Err_0),
        ),
{
    law_catalogs_are_the_well_formed(data);
}

/// The identifiers are the encodings of 1.3.6.1.4.1.311.12.1.3, of 1.3.14.3.2.26 and of
/// 2.16.840.1.101.3.4.2.1: forty times the first number and the second in a byte, and each further
/// number in base 128, with the highest bit set in all of its bytes but the last.
pub proof fn law_identifiers_spell_their_numbers()
    ensures
        MEMBER2_OID@ == seq![
            (40 * 1 + 3) as u8,
            6,
            1,
            4,
            1,
            (128 + 311int / 128) as u8,
            (311int % 128) as u8,
            12,
            1,
            3,
        ],
        SHA1_OID@ == seq![(40 * 1 + 3) as u8, 14, 3, 2, 26],
        SHA256_OID@ == seq![
            (40 * 2 + 16) as u8,
            (128 + 840int / 128) as u8,
            (840int % 128) as u8,
            1,
            101,
            3,
            4,
            2,
            1,
        ],
{
}

/// A walk over octet strings goes on from value to value, and into a constructed one before it goes
/// behind it. It keeps what it found where it is stopped, and goes no further.
pub proof fn law_octets_are_gathered_value_by_value(
    data: Seq<u8>,
    offset: int,
    value: Value,
    next: int,
    digest: Seq<u8>,
)
    requires
        0 <= offset,
        value_at(data, offset) == Ok::<Option<(Value, int)>, AsnError>(Some((value, next))),
    ensures
        ({
            let walk = all_octets(data, offset);
            let inside = all_octets(value.content, 0);
            let behind = all_octets(data, next);
            let goes_in = (value.tag / 32) % 2 == 1;
            &&& walk.digests.contains(digest) <==> {
                ||| value.tag == 0x04 && value.content == digest && could_be_hash(digest)
                ||| goes_in && inside.digests.contains(digest)
                ||| !(goes_in && inside.error is Some) && behind.digests.contains(digest)
            }
            &&& walk.error == if goes_in && inside.error is Some {
                inside.error
            } else {
                behind.error
            }
        }),
{
    law_constructed_is_a_bit_of_the_tag(value.tag, value.content);
    assert(value == (Value { tag: value.tag, content: value.content }));
}

/// A walk over octet strings that is at no value has found nothing, and is stopped by what is wrong
/// there, if anything is.
pub proof fn law_octets_end(data: Seq<u8>, offset: int)
    requires
        0 <= offset,
    ensures
        offset >= data.len() ==> all_octets(data, offset).digests == Set::<Seq<u8>>::empty()
            && all_octets(data, offset).error is None,
        offset < data.len() ==> (value_at(data, offset) matches Err(e) ==> all_octets(
            data,
            offset,
        ).digests == Set::<Seq<u8>>::empty() && all_octets(data, offset).error == Some(e)),
{
}

/// A walk adds what it gathers to a set, and takes nothing away.
pub proof fn law_walks_only_add(
    before: DigestSet,
    after: DigestSet,
    walk: Gathered,
    digest: Seq<u8>,
)
    requires
        walked(before, after, walk),
    ensures
        after@.contains(digest) <==> before@.contains(digest) || walk.digests.contains(digest),
{
}

} // verus!
