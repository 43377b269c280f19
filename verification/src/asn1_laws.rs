//! What holds of reading ASN.1 values, byte by byte.

use vstd::arithmetic::div_mod::{lemma_div_denominator, lemma_fundamental_div_mod};
use vstd::arithmetic::power::{lemma_pow_positive, pow};
use vstd::prelude::*;

use crate::asn1::{
    big_endian, listed, stopped_at, value_at, values_from, views, AsnError, Tlv, Value,
};

verus! {

/// Dividing by a power of `base` is dividing by `base` and then by the next lower power.
pub proof fn lemma_digit_moves(n: int, base: int, m: nat)
    requires
        0 <= n,
        1 < base,
    ensures
        n / pow(base, m + 1) == (n / base) / pow(base, m),
{
    reveal(pow);
    lemma_pow_positive(base, m);
    assert(pow(base, m + 1) == base * pow(base, m));
    lemma_div_denominator(n, base, pow(base, m));
}

proof fn lemma_big_endian_below(bytes: Seq<u8>)
    ensures
        big_endian(bytes) < pow(256, bytes.len()),
    decreases bytes.len(),
{
    reveal(pow);
    if bytes.len() > 0 {
        lemma_big_endian_below(bytes.drop_last());
        assert(pow(256, bytes.len()) == 256 * pow(256, (bytes.len() - 1) as nat));
    }
}

/// Length bytes spell the number that has them for its digits in base 256, the most significant
/// first: each byte is the digit of its place, and there is no further digit.
pub proof fn law_length_bytes_are_digits(bytes: Seq<u8>)
    ensures
        big_endian(bytes) < pow(256, bytes.len()),
        forall|i: int|
            0 <= i < bytes.len() ==> (big_endian(bytes) as int / pow(
                256,
                (bytes.len() - 1 - i) as nat,
            )) % 256 == #[trigger] bytes[i],
    decreases bytes.len(),
{
    lemma_big_endian_below(bytes);
    if bytes.len() > 0 {
        let less = bytes.drop_last();
        let n = big_endian(bytes) as int;
        law_length_bytes_are_digits(less);
        assert(n / 256 == big_endian(less) && n % 256 == bytes.last());
        assert forall|i: int| 0 <= i < bytes.len() implies (n / pow(
            256,
            (bytes.len() - 1 - i) as nat,
        )) % 256 == #[trigger] bytes[i] by {
            if i == bytes.len() - 1 {
                reveal(pow);
                assert(pow(256, 0) == 1);
            } else {
                lemma_digit_moves(n, 256, (less.len() - 1 - i) as nat);
                assert(less[i] == bytes[i]);
            }
        }
    }
}

/// Length bytes spell the sum of each byte times its power of 256.
pub proof fn law_length_bytes_add_up(bytes: Seq<u8>)
    ensures
        big_endian(bytes) == Seq::new(
            bytes.len(),
            |i: int| bytes[i] * pow(256, (bytes.len() - 1 - i) as nat),
        ).fold_left(0int, |sum: int, term: int| sum + term),
    decreases bytes.len(),
{
    let plus = |sum: int, term: int| sum + term;
    let terms = Seq::new(
        bytes.len(),
        |i: int| bytes[i] * pow(256, (bytes.len() - 1 - i) as nat),
    );
    if bytes.len() > 0 {
        let less = bytes.drop_last();
        let lower = Seq::new(
            less.len(),
            |i: int| less[i] * pow(256, (less.len() - 1 - i) as nat),
        );
        law_length_bytes_add_up(less);
        reveal(pow);
        assert(pow(256, 0) == 1);
        assert forall|i: int| 0 <= i < less.len() implies #[trigger] terms[i] == 256 * lower[i] by {
            let p = pow(256, (less.len() - 1 - i) as nat);
            assert(pow(256, (bytes.len() - 1 - i) as nat) == 256 * p);
            assert(bytes[i] * (256 * p) == 256 * (bytes[i] * p)) by (nonlinear_arith);
        }
        lemma_sum_scales(terms.drop_last(), lower, 256);
        assert(terms.last() == bytes.last());
    }
}

/// Where each of the terms is `factor` times as large, so is their sum.
pub proof fn lemma_sum_scales(more: Seq<int>, less: Seq<int>, factor: int)
    requires
        more.len() == less.len(),
        forall|i: int| 0 <= i < less.len() ==> #[trigger] more[i] == factor * less[i],
    ensures
        more.fold_left(0int, |sum: int, term: int| sum + term) == factor * less.fold_left(
            0int,
            |sum: int, term: int| sum + term,
        ),
    decreases less.len(),
{
    let plus = |sum: int, term: int| sum + term;
    if less.len() > 0 {
        assert(forall|i: int|
            0 <= i < less.len() - 1 ==> #[trigger] more.drop_last()[i] == more[i]
                && less.drop_last()[i] == less[i]);
        lemma_sum_scales(more.drop_last(), less.drop_last(), factor);
        assert(more[less.len() - 1] == factor * less[less.len() - 1]);
        let sum = less.drop_last().fold_left(0int, plus);
        let last = less.last();
        assert(factor * (sum + last) == factor * sum + factor * last) by (nonlinear_arith);
    }
}

/// The bytes that are the digits of `n` in base 256 spell `n`.
pub proof fn lemma_digits_spell(bytes: Seq<u8>, n: int)
    requires
        0 <= n < pow(256, bytes.len()),
        forall|i: int|
            0 <= i < bytes.len() ==> (n / pow(256, (bytes.len() - 1 - i) as nat)) % 256
                == #[trigger] bytes[i],
    ensures
        big_endian(bytes) == n,
    decreases bytes.len(),
{
    reveal(pow);
    if bytes.len() == 0 {
        assert(pow(256, 0) == 1);
    } else {
        let less = bytes.drop_last();
        assert(pow(256, bytes.len()) == 256 * pow(256, less.len()));
        lemma_fundamental_div_mod(n, 256);
        assert(pow(256, 0) == 1);
        assert(bytes[bytes.len() - 1] == n % 256) by {
            assert((n / pow(256, (bytes.len() - 1 - (bytes.len() - 1)) as nat)) % 256
                == bytes[bytes.len() - 1]);
        }
        assert forall|i: int| 0 <= i < less.len() implies ((n / 256) / pow(
            256,
            (less.len() - 1 - i) as nat,
        )) % 256 == #[trigger] less[i] by {
            lemma_digit_moves(n, 256, (less.len() - 1 - i) as nat);
            assert(less[i] == bytes[i]);
        }
        lemma_digits_spell(less, n / 256);
    }
}

/// A value reads back wherever it stands: a tag, a length below 128, and as many bytes of content.
pub proof fn law_short_value_reads_back_anywhere(
    before: Seq<u8>,
    tag: u8,
    length: u8,
    content: Seq<u8>,
    rest: Seq<u8>,
)
    requires
        length < 128,
        content.len() == length,
        before.len() + 2 + content.len() <= usize::MAX,
    ensures
        value_at(before + seq![tag, length] + content + rest, before.len() as int) == Ok::<
            Option<(Value, int)>,
            AsnError,
        >(Some((Value { tag, content }, before.len() + 2 + length))),
{
    let data = before + seq![tag, length] + content + rest;
    let at = before.len() as int;
    assert(data[at] == tag && data[at + 1] == length);
    assert(data.subrange(at + 2, at + 2 + length) =~= content);
}

/// A value reads back wherever it stands: a tag, 128 and the number of length bytes, the length of
/// the content in base 256, and the content. Neither more length bytes than a word has nor a length
/// of no bytes are read so.
pub proof fn law_long_value_reads_back_anywhere(
    before: Seq<u8>,
    tag: u8,
    count: u8,
    length: Seq<u8>,
    content: Seq<u8>,
    rest: Seq<u8>,
)
    requires
        0 < length.len() <= usize::BITS / 8,
        count == 128 + length.len(),
        content.len() < pow(256, length.len()),
        forall|i: int|
            0 <= i < length.len() ==> (content.len() as int / pow(
                256,
                (length.len() - 1 - i) as nat,
            )) % 256 == #[trigger] length[i],
        before.len() + 2 + length.len() + content.len() <= usize::MAX,
    ensures
        value_at(before + seq![tag, count] + length + content + rest, before.len() as int) == Ok::<
            Option<(Value, int)>,
            AsnError,
        >(
            Some(
                (
                    Value { tag, content },
                    before.len() + 2 + length.len() + content.len() as int,
                ),
            ),
        ),
{
    let data = before + seq![tag, count] + length + content + rest;
    let at = before.len() as int;
    let start = at + 2 + length.len() as int;
    lemma_digits_spell(length, content.len() as int);
    assert(data[at] == tag && data[at + 1] == count);
    assert(data.subrange(at + 2, start) =~= length);
    assert(data.subrange(start, start + content.len() as int) =~= content);
}

/// Nothing is read at the end; a single byte is no value; a length of 128 is left open and no
/// length; a length of more bytes than a word has, or than are left, is none.
pub proof fn law_what_is_no_value(before: Seq<u8>, tag: u8, first: u8, rest: Seq<u8>)
    ensures
        value_at(before, before.len() as int) == Ok::<Option<(Value, int)>, AsnError>(None),
        value_at(before.push(tag), before.len() as int) == Err::<Option<(Value, int)>, AsnError>(
            AsnError::TruncatedHeader,
        ),
        ({
            let data = before + seq![tag, first] + rest;
            let read = value_at(data, before.len() as int);
            let stop = stopped_at(data, before.len() as int);
            &&& first == 128 ==> read == Err::<Option<(Value, int)>, AsnError>(
                AsnError::IndefiniteLength,
            ) && stop == before.len() + 2
            &&& first > 128 && (first - 128 > usize::BITS / 8 || first - 128 > rest.len()) ==> read
                == Err::<Option<(Value, int)>, AsnError>(AsnError::InvalidLength) && stop
                == before.len() + 2
            &&& first < 128 && rest.len() < first && before.len() + 2 + first <= usize::MAX ==> read
                == Err::<Option<(Value, int)>, AsnError>(AsnError::ContentExceeds) && stop
                == before.len() + 2
        }),
        stopped_at(before.push(tag), before.len() as int) == before.len(),
{
    let data = before + seq![tag, first] + rest;
    let at = before.len() as int;
    assert(data[at] == tag && data[at + 1] == first);
}

/// Where the length in base 256 is more than is left, there is no value, and reading stops behind the
/// length bytes; so it does where the end of the content is beyond what a word counts.
pub proof fn law_too_long_a_value_is_refused(
    before: Seq<u8>,
    tag: u8,
    count: u8,
    length: Seq<u8>,
    rest: Seq<u8>,
    n: int,
)
    requires
        0 < length.len() <= usize::BITS / 8,
        count == 128 + length.len(),
        rest.len() < n < pow(256, length.len()),
        forall|i: int|
            0 <= i < length.len() ==> (n / pow(256, (length.len() - 1 - i) as nat)) % 256
                == #[trigger] length[i],
    ensures
        ({
            let data = before + seq![tag, count] + length + rest;
            let start = before.len() + 2 + length.len();
            &&& value_at(data, before.len() as int) == Err::<Option<(Value, int)>, AsnError>(
                if start + n > usize::MAX {
                    AsnError::ContentOverflow
                } else {
                    AsnError::ContentExceeds
                },
            )
            &&& stopped_at(data, before.len() as int) == start
        }),
{
    let data = before + seq![tag, count] + length + rest;
    let at = before.len() as int;
    lemma_digits_spell(length, n);
    assert(data[at] == tag && data[at + 1] == count);
    assert(data.subrange(at + 2, at + 2 + length.len() as int) =~= length);
}

/// The content of a value is itself a list of values exactly if the sixth bit of its tag is set, and
/// a value that was read says so.
pub proof fn law_constructed_is_a_bit_of_the_tag(tag: u8, content: Seq<u8>)
    ensures
        (Value { tag, content }).constructed() <==> (tag / 32) % 2 == 1,
{
    assert(tag & 0x20 != 0 <==> (tag / 32) % 2 == 1) by (bit_vector);
}

/// Reading a list is reading its first value and then the list behind it.
pub proof fn law_lists_are_read_value_by_value(data: Seq<u8>, offset: int)
    requires
        0 <= offset,
    ensures
        offset >= data.len() ==> values_from(data, offset) == Ok::<Seq<Value>, AsnError>(seq![]),
        offset < data.len() ==> match value_at(data, offset) {
            Err(e) => values_from(data, offset) == Err::<Seq<Value>, AsnError>(e),
            Ok(Some((value, next))) => match values_from(data, next) {
                Err(e) => values_from(data, offset) == Err::<Seq<Value>, AsnError>(e),
                Ok(rest) => values_from(data, offset) == Ok::<Seq<Value>, AsnError>(
                    seq![value] + rest,
                ),
            },
            Ok(None) => false,
        },
{
}

/// A value that was read is its tag, its content and the bit.
pub proof fn law_a_value_shows_its_parts(tlv: Tlv<'_>)
    requires
        tlv.wf(),
    ensures
        tlv@.tag == tlv.tag,
        tlv@.content == tlv.content@,
        tlv.constructed <==> (tlv.tag / 32) % 2 == 1,
{
    law_constructed_is_a_bit_of_the_tag(tlv.tag, tlv.content@);
}

/// Values that were read are those of the list, one for one, with their tags and contents.
pub proof fn law_values_are_read_one_for_one(tlvs: Seq<Tlv<'_>>, values: Seq<Value>)
    requires
        listed(tlvs, values),
    ensures
        tlvs.len() == values.len(),
        forall|i: int|
            0 <= i < tlvs.len() ==> {
                &&& (#[trigger] tlvs[i]).tag == values[i].tag
                &&& tlvs[i].content@ == values[i].content
                &&& tlvs[i].constructed <==> (values[i].tag / 32) % 2 == 1
            },
{
    assert(values.len() == tlvs.len());
    assert forall|i: int| 0 <= i < tlvs.len() implies {
        &&& (#[trigger] tlvs[i]).tag == values[i].tag
        &&& tlvs[i].content@ == values[i].content
        &&& tlvs[i].constructed <==> (values[i].tag / 32) % 2 == 1
    } by {
        assert(views(tlvs)[i] == tlvs[i]@);
        law_a_value_shows_its_parts(tlvs[i]);
    }
}

/// There is no value beyond the end, and reading stops where it began.
pub proof fn law_nothing_is_beyond_the_end(data: Seq<u8>, offset: int)
    requires
        offset > data.len(),
    ensures
        value_at(data, offset) == Err::<Option<(Value, int)>, AsnError>(AsnError::TruncatedHeader),
        stopped_at(data, offset) == offset,
{
}

} // verus!
