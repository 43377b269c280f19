//! Reading ASN.1 values: a tag byte, a definite length, and the content.

use vstd::arithmetic::power::{lemma_pow_increases, pow};
use vstd::prelude::*;
use vstd::slice::slice_subrange;

use crate::asn1_laws::law_length_bytes_add_up;

verus! {

/// Why bytes are not the ASN.1 values they should be.
#[derive(Clone, Copy, Debug, PartialEq, Eq, Structural)]
pub enum AsnError {
    /// Fewer than two bytes are left for a tag and a length.
    TruncatedHeader,
    /// The length is left open, to be ended by a marker.
    IndefiniteLength,
    /// The length has more bytes than a machine word, or than are left.
    InvalidLength,
    /// The end of the content is beyond what a machine word counts.
    ContentOverflow,
    /// The content ends beyond the value that holds it.
    ContentExceeds,
}

impl AsnError {
    /// What the error says.
    pub open spec fn text(self) -> Seq<char> {
        match self {
            AsnError::TruncatedHeader => "truncated ASN.1 TLV header"@,
            AsnError::IndefiniteLength => "indefinite ASN.1 lengths are not supported"@,
            AsnError::InvalidLength => "invalid ASN.1 length"@,
            AsnError::ContentOverflow => "ASN.1 content overflow"@,
            AsnError::ContentExceeds => "ASN.1 content exceeds enclosing value"@,
        }
    }

    /// What the error says.
    pub fn message(&self) -> (message: String)
        ensures
            message@ == self.text(),
    {
        match self {
            AsnError::TruncatedHeader => "truncated ASN.1 TLV header".to_owned(),
            AsnError::IndefiniteLength => "indefinite ASN.1 lengths are not supported".to_owned(),
            AsnError::InvalidLength => "invalid ASN.1 length".to_owned(),
            AsnError::ContentOverflow => "ASN.1 content overflow".to_owned(),
            AsnError::ContentExceeds => "ASN.1 content exceeds enclosing value".to_owned(),
        }
    }
}

/// One ASN.1 value: its tag, its content, and whether the tag says that the content is
/// itself a list of values.
#[derive(Clone, Copy, Debug)]
pub struct Tlv<'a> {
    pub tag: u8,
    pub content: &'a [u8],
    pub constructed: bool,
}

/// What there is to know of an ASN.1 value.
pub ghost struct Value {
    pub tag: u8,
    pub content: Seq<u8>,
}

impl Value {
    /// The content is a list of values.
    pub open spec fn constructed(self) -> bool {
        self.tag & 0x20 != 0
    }
}

impl<'a> View for Tlv<'a> {
    type V = Value;

    open spec fn view(&self) -> Value {
        Value { tag: self.tag, content: self.content@ }
    }
}

impl<'a> Tlv<'a> {
    /// The flag agrees with the tag.
    pub open spec fn wf(self) -> bool {
        self.constructed == self@.constructed()
    }
}

/// The number that `bytes` spell, most significant byte first.
pub open spec fn big_endian(bytes: Seq<u8>) -> nat
    decreases bytes.len(),
{
    if bytes.len() == 0 {
        0
    } else {
        big_endian(bytes.drop_last()) * 256 + bytes.last() as nat
    }
}

/// How many bytes a machine word has.
pub open spec fn word_bytes() -> nat {
    (usize::BITS / 8) as nat
}

/// The value with the given tag whose content is the `length` bytes at `start`, and where
/// it ends.
pub open spec fn value_with_content(data: Seq<u8>, tag: u8, start: int, length: nat) -> Result<
    Option<(Value, int)>,
    AsnError,
> {
    if start + length > usize::MAX {
        Err(AsnError::ContentOverflow)
    } else if start + length > data.len() {
        Err(AsnError::ContentExceeds)
    } else {
        Ok(
            Some(
                (
                    Value { tag, content: data.subrange(start, start + length) },
                    start + length,
                ),
            ),
        )
    }
}

/// The value that begins at `offset`, and where it ends; nothing at the end of the data.
pub open spec fn value_at(data: Seq<u8>, offset: int) -> Result<Option<(Value, int)>, AsnError> {
    if offset == data.len() {
        Ok(None)
    } else if data.len() - offset < 2 {
        Err(AsnError::TruncatedHeader)
    } else {
        let tag = data[offset];
        let first = data[offset + 1];
        if first < 0x80 {
            value_with_content(data, tag, offset + 2, first as nat)
        } else if first == 0x80 {
            Err(AsnError::IndefiniteLength)
        } else {
            let start = offset + 2 + (first - 0x80);
            if first - 0x80 > word_bytes() || start > data.len() {
                Err(AsnError::InvalidLength)
            } else {
                value_with_content(data, tag, start, big_endian(data.subrange(offset + 2, start)))
            }
        }
    }
}

/// Where reading the value at `offset` stops if there is none: where it began, if there is no room
/// for a tag and a length; behind these, if the length is not one; and behind the bytes of the
/// length, if it is one.
pub open spec fn stopped_at(data: Seq<u8>, offset: int) -> int {
    if data.len() - offset < 2 {
        offset
    } else {
        let first = data[offset + 1];
        if first <= 0x80 || first - 0x80 > word_bytes() || offset + 2 + (first - 0x80)
            > data.len() {
            offset + 2
        } else {
            offset + 2 + (first - 0x80)
        }
    }
}

/// `first` and then `rest`, where there is a rest.
pub open spec fn preceded(first: Seq<Value>, rest: Result<Seq<Value>, AsnError>) -> Result<
    Seq<Value>,
    AsnError,
> {
    match rest {
        Err(e) => Err(e),
        Ok(rest) => Ok(first + rest),
    }
}

/// The values that `data` lists from `offset` on, one after the other to its end.
pub open spec fn values_from(data: Seq<u8>, offset: int) -> Result<Seq<Value>, AsnError>
    decreases data.len() - offset,
{
    if offset >= data.len() {
        Ok(seq![])
    } else {
        match value_at(data, offset) {
            Err(e) => Err(e),
            Ok(None) => Ok(seq![]),
            Ok(Some((value, next))) => preceded(seq![value], values_from(data, next)),
        }
    }
}

proof fn lemma_big_endian_bound(bytes: Seq<u8>)
    ensures
        big_endian(bytes) < pow(256, bytes.len()),
    decreases bytes.len(),
{
    reveal(pow);
    if bytes.len() > 0 {
        lemma_big_endian_bound(bytes.drop_last());
        assert(pow(256, bytes.len()) == 256 * pow(256, (bytes.len() - 1) as nat));
    }
}

/// A number of no more bytes than a machine word has fits in one.
proof fn lemma_word_fits(bytes: Seq<u8>)
    requires
        bytes.len() <= word_bytes(),
    ensures
        big_endian(bytes) <= usize::MAX,
{
    lemma_big_endian_bound(bytes);
    lemma_pow_increases(256, bytes.len(), word_bytes());
    if usize::BITS == 32 {
        assert(pow(256, 4) == 0x1_0000_0000) by {
            reveal_with_fuel(pow, 5);
        }
    } else {
        assert(pow(256, 8) == 0x1_0000_0000_0000_0000) by {
            reveal_with_fuel(pow, 9);
        }
    }
}

/// Every value that `data` lists from `offset` on leaves room for its tag and length.
pub proof fn lemma_values_smaller(data: Seq<u8>, offset: int, i: int)
    requires
        0 <= offset,
        values_from(data, offset) is Ok,
        0 <= i < values_from(data, offset)->Ok_0.len(),
    ensures
        values_from(data, offset)->Ok_0[i].content.len() + 2 <= data.len() - offset,
    decreases data.len() - offset,
{
    if let Ok(Some((value, next))) = value_at(data, offset) {
        if i > 0 {
            lemma_values_smaller(data, next, i - 1);
        }
    }
}

proof fn lemma_preceded(first: Seq<Value>, value: Value, rest: Result<Seq<Value>, AsnError>)
    ensures
        preceded(first, preceded(seq![value], rest)) == preceded(first.push(value), rest),
{
    if let Ok(rest) = rest {
        assert(first + (seq![value] + rest) =~= first.push(value) + rest);
    }
}

/// Reads the number that `bytes` spell, most significant byte first.
fn read_big_endian(bytes: &[u8]) -> (number: usize)
    requires
        bytes@.len() <= word_bytes(),
    ensures
        number == big_endian(bytes@),
{
    let mut number: usize = 0;
    for i in 0..bytes.len()
        invariant
            bytes@.len() <= word_bytes(),
            number == big_endian(bytes@.take(i as int)),
    {
        assert(bytes@.take(i + 1).drop_last() =~= bytes@.take(i as int));
        proof {
            lemma_word_fits(bytes@.take(i + 1));
        }
        number = number * 256 + bytes[i] as usize;
    }
    assert(bytes@.take(bytes@.len() as int) =~= bytes@);
    number
}

/// Reads the value at `offset` in the first `end` bytes of `data` and moves `offset` past it.
///
/// At the end there is nothing to read, and `offset` stays. Where the bytes are not a value, it is
/// moved past what was read of them: past the tag and the length, but not past the content.
pub fn next_tlv<'a>(data: &'a [u8], offset: &mut usize, end: usize) -> (tlv: Result<
    Option<Tlv<'a>>,
    AsnError,
>)
    requires
        end <= data@.len(),
    ensures
        match value_at(data@.take(end as int), *old(offset) as int) {
            Err(e) => {
                &&& tlv == Err::<Option<Tlv<'a>>, AsnError>(e)
                &&& *final(offset) == stopped_at(data@.take(end as int), *old(offset) as int)
            },
            Ok(None) => tlv is Ok && tlv->Ok_0 is None && *final(offset) == *old(offset),
            Ok(Some((value, next))) => {
                &&& tlv is Ok && tlv->Ok_0 is Some
                &&& tlv->Ok_0->Some_0.wf()
                &&& tlv->Ok_0->Some_0@ == value
                &&& *final(offset) == next
            },
        },
{
    let ghost all = data@.take(end as int);
    let at: usize = *offset;
    if at == end {
        return Ok(None);
    }
    if at > end || end - at < 2 {
        return Err(AsnError::TruncatedHeader);
    }
    let tag: u8 = data[at];
    let length_byte: u8 = data[at + 1];
    *offset = at + 2;
    if length_byte == 0x80 {
        return Err(AsnError::IndefiniteLength);
    }
    let length: usize = if length_byte < 0x80 {
        length_byte as usize
    } else {
        let count: usize = (length_byte - 0x80) as usize;
        if count > (usize::BITS / 8) as usize || end - *offset < count {
            return Err(AsnError::InvalidLength);
        }
        let bytes = slice_subrange(data, *offset, *offset + count);
        assert(bytes@ =~= all.subrange(at + 2, at + 2 + count));
        *offset = *offset + count;
        read_big_endian(bytes)
    };
    let start: usize = *offset;
    if length > usize::MAX - start {
        return Err(AsnError::ContentOverflow);
    }
    if start + length > end {
        return Err(AsnError::ContentExceeds);
    }
    let content = slice_subrange(data, start, start + length);
    assert(content@ =~= all.subrange(start as int, start + length));
    *offset = start + length;
    Ok(Some(Tlv { tag, content, constructed: tag & 0x20 != 0 }))
}

/// Lists the values of `data`, one after the other to its end.
pub fn parse_children(data: &[u8]) -> (children: Result<Vec<Tlv<'_>>, AsnError>)
    ensures
        match values_from(data@, 0) {
            Err(e) => children == Err::<Vec<Tlv<'_>>, AsnError>(e),
            Ok(values) => children is Ok && listed(children->Ok_0@, values),
        },
{
    assert(data@.take(data@.len() as int) =~= data@);
    list_values(data, 0, data.len())
}

/// Lists the values in the first `end` bytes of `data` from `start` on.
pub fn list_values(data: &[u8], start: usize, end: usize) -> (children: Result<
    Vec<Tlv<'_>>,
    AsnError,
>)
    requires
        end <= data@.len(),
    ensures
        match values_from(data@.take(end as int), start as int) {
            Err(e) => children == Err::<Vec<Tlv<'_>>, AsnError>(e),
            Ok(values) => children is Ok && listed(children->Ok_0@, values),
        },
{
    let ghost all = data@.take(end as int);
    let mut offset: usize = start;
    let mut children: Vec<Tlv<'_>> = Vec::new();
    while offset < end
        invariant
            end <= data@.len(),
            all == data@.take(end as int),
            forall|k: int| 0 <= k < children@.len() ==> (#[trigger] children@[k]).wf(),
            values_from(all, start as int) == preceded(
                views(children@),
                values_from(all, offset as int),
            ),
        decreases end - offset,
    {
        let ghost before = children@;
        match next_tlv(data, &mut offset, end) {
            Err(e) => {
                return Err(e);
            },
            Ok(None) => {
                return Ok(children);
            },
            Ok(Some(tlv)) => {
                children.push(tlv);
                proof {
                    assert(views(children@) =~= views(before).push(tlv@));
                    lemma_preceded(views(before), tlv@, values_from(all, offset as int));
                }
            },
        }
    }
    assert(values_from(all, offset as int) == Ok::<Seq<Value>, AsnError>(seq![]));
    assert(views(children@) + seq![] =~= views(children@));
    Ok(children)
}

/// What there is to know of each of `tlvs`.
pub open spec fn views(tlvs: Seq<Tlv<'_>>) -> Seq<Value> {
    tlvs.map_values(|t: Tlv<'_>| t@)
}

/// `tlvs` are well formed and show `values`.
pub open spec fn listed(tlvs: Seq<Tlv<'_>>, values: Seq<Value>) -> bool {
    &&& views(tlvs) == values
    &&& forall|k: int| 0 <= k < tlvs.len() ==> (#[trigger] tlvs[k]).wf()
}

/// Writing a tag, a length below 128 and that many bytes, and reading the value back, gives
/// the tag and the bytes, whatever follows them.
pub proof fn law_short_value_reads_back(tag: u8, content: Seq<u8>, rest: Seq<u8>)
    requires
        content.len() < 0x80,
    ensures
        value_at(seq![tag, content.len() as u8] + content + rest, 0) == Ok::<
            Option<(Value, int)>,
            AsnError,
        >(Some((Value { tag, content }, 2 + content.len() as int))),
{
    let data = seq![tag, content.len() as u8] + content + rest;
    assert(data.subrange(2, 2 + content.len() as int) =~= content);
}

/// Writing a tag, the number of length bytes, a length in base 256 of at most as many bytes as a
/// machine word has and that many bytes of content, and reading the value back, gives the tag and the
/// content, whatever follows them.
pub proof fn law_long_value_reads_back(tag: u8, length: Seq<u8>, content: Seq<u8>, rest: Seq<u8>)
    requires
        0 < length.len() <= usize::BITS / 8,
        content.len() == Seq::new(
            length.len(),
            |i: int| length[i] * pow(256, (length.len() - 1 - i) as nat),
        ).fold_left(0int, |sum: int, term: int| sum + term),
        2 + length.len() + content.len() <= usize::MAX,
    ensures
        value_at(seq![tag, (0x80 + length.len()) as u8] + length + content + rest, 0) == Ok::<
            Option<(Value, int)>,
            AsnError,
        >(Some((Value { tag, content }, 2 + length.len() + content.len() as int))),
{
    law_length_bytes_add_up(length);
    let data = seq![tag, (0x80 + length.len()) as u8] + length + content + rest;
    let start = 2 + length.len() as int;
    assert(data.subrange(2, start) =~= length);
    assert(data.subrange(start, start + content.len() as int) =~= content);
}

} // verus!
