//! Byte text: appending pieces, and folding per-round values.

use vstd::prelude::*;
use vstd::string::*;
use vstd::utf8::{encode_utf8, is_leading_byte_width_1, partial_valid_utf8, valid_utf8};

use crate::decimal::{digits_of, is_digit, lemma_digits_of, push_decimal};

verus! {

/// Append `piece`.
pub fn push_bytes(out: &mut Vec<u8>, piece: &[u8])
    ensures
        final(out)@ == old(out)@ + piece@,
{
    let ghost before = out@;
    let mut i: usize = 0;
    while i < piece.len()
        invariant
            i <= piece@.len(),
            out@ == before + piece@.take(i as int),
        decreases piece@.len() - i,
    {
        out.push(piece[i]);
        i = i + 1;
        assert(piece@.take(i as int) =~= piece@.take(i - 1).push(piece@[i - 1]));
    }
    assert(piece@.take(piece@.len() as int) =~= piece@);
}

/// The exclusive or of all values.
pub open spec fn xor_seq(values: Seq<usize>) -> usize
    decreases values.len(),
{
    if values.len() == 0 {
        0
    } else {
        xor_seq(values.drop_last()) ^ values.last()
    }
}

/// The same bytes.
pub fn equal_bytes(left: &[u8], right: &[u8]) -> (equal: bool)
    ensures
        equal == (left@ == right@),
{
    if left.len() != right.len() {
        return false;
    }
    let mut i: usize = 0;
    while i < left.len()
        invariant
            left@.len() == right@.len(),
            i <= left@.len(),
            forall|k: int| 0 <= k < i ==> left@[k] == right@[k],
        decreases left@.len() - i,
    {
        if left[i] != right[i] {
            assert(left@[i as int] != right@[i as int]);
            return false;
        }
        i = i + 1;
    }
    assert(left@ =~= right@);
    true
}

/// The low byte.
pub fn byte(value: usize) -> (low: u8)
    ensures
        low == value % 256,
{
    (value % 256) as u8
}

/// A value can be taken out anywhere.
proof fn lemma_xor_remove(values: Seq<usize>, at: int)
    requires
        0 <= at < values.len(),
    ensures
        xor_seq(values) == xor_seq(values.remove(at)) ^ values[at],
    decreases values.len(),
{
    let last = values.last();
    if at == values.len() - 1 {
        assert(values.remove(at) =~= values.drop_last());
    } else {
        lemma_xor_remove(values.drop_last(), at);
        let rest = values.remove(at);
        assert(rest.drop_last() =~= values.drop_last().remove(at));
        assert(rest.last() == last);
        let fewer = xor_seq(rest.drop_last());
        let taken = values[at];
        assert((fewer ^ taken) ^ last == (fewer ^ last) ^ taken) by (bit_vector);
    }
}

/// The exclusive or of values does not depend on the order in which they arrive.
pub proof fn law_order_does_not_matter(left: Seq<usize>, right: Seq<usize>)
    requires
        left.to_multiset() == right.to_multiset(),
    ensures
        xor_seq(left) == xor_seq(right),
    decreases left.len(),
{
    broadcast use vstd::seq_lib::group_to_multiset_ensures;

    assert(left.len() == left.to_multiset().len());
    assert(right.len() == right.to_multiset().len());
    if left.len() > 0 {
        let value = left.last();
        assert(left.contains(value));
        assert(right.to_multiset().count(value) > 0);
        assert(right.contains(value));
        let at = right.index_of(value);
        lemma_xor_remove(right, at);
        assert(left.drop_last() =~= left.remove(left.len() - 1));
        law_order_does_not_matter(left.drop_last(), right.remove(at));
    }
}

/// Every byte is an ASCII character.
pub open spec fn ascii(bytes: Seq<u8>) -> bool {
    forall|i: int| 0 <= i < bytes.len() ==> #[trigger] bytes[i] < 128
}

/// ASCII characters are the encoding of some text.
pub proof fn lemma_ascii_is_text(bytes: Seq<u8>)
    requires
        ascii(bytes),
    ensures
        valid_utf8(bytes),
{
    assert forall|i: int| 0 <= i < bytes.len() implies #[trigger] is_leading_byte_width_1(
        bytes[i],
    ) by {
        let byte = bytes[i];
        assert(byte < 128 ==> byte & 0x80 == 0) by (bit_vector);
    }
    assert(bytes.subrange(0, 0) =~= Seq::<u8>::empty());
    assert(partial_valid_utf8(bytes, 0));
    vstd::utf8::partial_valid_utf8_extend_ascii_block(bytes, 0, bytes.len() as int);
    assert(bytes.subrange(0, bytes.len() as int) =~= bytes);
}

/// The bytes of ASCII text are ASCII.
pub proof fn lemma_literal(text: &str)
    requires
        is_ascii(text),
    ensures
        ascii(text.spec_bytes()),
        text.spec_bytes().len() == text@.len(),
{
    is_ascii_spec_bytes(text);
}

/// `byte` is a lower-case letter, a digit, a hyphen or an underscore.
pub open spec fn is_word_byte(byte: int) -> bool {
    97 <= byte <= 122 || 48 <= byte <= 57 || byte == 45 || byte == 95
}

/// A text without anything that a format would have to escape.
pub open spec fn is_word(text: Seq<u8>) -> bool {
    &&& text.len() > 0
    &&& forall|i: int| 0 <= i < text.len() ==> is_word_byte(#[trigger] text[i] as int)
}

/// A literal of word characters is a word, also with a number behind it.
pub proof fn lemma_word(text: &str, n: nat)
    requires
        text@.len() > 0,
        forall|i: int| 0 <= i < text@.len() ==> is_word_byte(#[trigger] text@[i] as int),
    ensures
        is_word(text.spec_bytes()),
        is_word(text.spec_bytes() + digits_of(n)),
{
    assert(is_ascii(text)) by {
        assert forall|i: int| 0 <= i < text@.len() implies (#[trigger] text@[i] as int) < 128 by {
            assert(is_word_byte(text@[i] as int));
        }
    }
    is_ascii_spec_bytes(text);
    lemma_digits_of(n);
    let bytes = text.spec_bytes();
    assert forall|i: int| 0 <= i < bytes.len() implies is_word_byte(#[trigger] bytes[i] as int) by {
        assert(is_word_byte(text@[i] as int));
    }
    let both = bytes + digits_of(n);
    assert forall|i: int| 0 <= i < both.len() implies is_word_byte(#[trigger] both[i] as int) by {
        if i >= bytes.len() {
            assert(crate::decimal::is_digit(digits_of(n)[i - bytes.len()]));
        }
    }
}

/// Decimal text is ASCII.
pub proof fn lemma_digits_ascii(n: nat)
    ensures
        ascii(digits_of(n)),
{
    lemma_digits_of(n);
    assert forall|i: int| 0 <= i < digits_of(n).len() implies #[trigger] digits_of(n)[i] < 128 by {
        assert(is_digit(digits_of(n)[i]));
    }
}

/// `String::from_utf8`: the text that `bytes` encode.
#[verifier::external_body]
pub(crate) fn utf8_text(bytes: Vec<u8>) -> (text: String)
    requires
        valid_utf8(bytes@),
    ensures
        encode_utf8(text@) == bytes@,
{
    String::from_utf8(bytes).unwrap_or_default()
}

/// `prefix` with the number `n` behind it.
pub fn numbered(prefix: &str, n: usize) -> (text: String)
    requires
        is_ascii(prefix),
    ensures
        encode_utf8(text@) == prefix.spec_bytes() + digits_of(n as nat),
{
    let mut bytes: Vec<u8> = Vec::new();
    push_bytes(&mut bytes, prefix.as_bytes());
    push_decimal(&mut bytes, n);
    proof {
        assert(bytes@ =~= prefix.spec_bytes() + digits_of(n as nat));
        lemma_literal(prefix);
        lemma_digits_ascii(n as nat);
        lemma_ascii_is_text(bytes@);
    }
    utf8_text(bytes)
}

} // verus!
