//! Laws of labels: what they are made of, and how they compare.
use std::cmp::Ordering;
use vstd::prelude::*;
use vstd::std_specs::cmp::PartialEqSpec;
use vstd::std_specs::cmp::PartialOrdSpec;
use vstd::std_specs::convert::FromSpec;
use vstd::utf8::encode_utf8;

use crate::label::{lemma_encoding_is_injective, Label};
use crate::order::{
    bytes_differ_at, bytes_less, lemma_bytes_less_is_asymmetric, lemma_bytes_less_is_irreflexive,
};

verus! {

/// A label has the text that it was made of, and gives it back whole.
pub proof fn lemma_a_label_is_its_text(
    fixed: &'static str,
    owned: String,
    label: Label,
    text: &str,
    string: String,
    bytes: &[u8],
)
    requires
        call_ensures(Label::text, (&label,), text),
        call_ensures(Label::to_string, (&label,), string),
        call_ensures(Label::hashed_bytes, (&label,), bytes),
    ensures
        label == Label::from_spec(fixed) ==> {
            &&& text@ == fixed@
            &&& string@ == fixed@
            &&& bytes@ == encode_utf8(fixed@)
        },
        label == Label::from_spec(owned) ==> {
            &&& text@ == owned@
            &&& string@ == owned@
            &&& bytes@ == encode_utf8(owned@)
        },
{
}

/// Labels are equal, and stand at the same place in the order, exactly if their texts are the same,
/// whichever way they hold them.
pub proof fn lemma_labels_are_equal_by_text(a: Label, b: Label, texts: (&str, &str))
    requires
        call_ensures(Label::text, (&a,), texts.0),
        call_ensures(Label::text, (&b,), texts.1),
    ensures
        a.eq_spec(&b) <==> texts.0@ == texts.1@,
        a.partial_cmp_spec(&b) == Some(Ordering::Equal) <==> texts.0@ == texts.1@,
{
}

/// The first byte in which the texts of two labels differ decides which of them comes first.
pub proof fn lemma_the_first_different_byte_decides(
    a: Label,
    b: Label,
    common: Seq<u8>,
    bytes: (u8, u8),
    rests: (Seq<u8>, Seq<u8>),
)
    requires
        encode_utf8(a@) == common.push(bytes.0) + rests.0,
        encode_utf8(b@) == common.push(bytes.1) + rests.1,
        bytes.0 < bytes.1,
    ensures
        a.partial_cmp_spec(&b) == Some(Ordering::Less),
        b.partial_cmp_spec(&a) == Some(Ordering::Greater),
{
    lemma_first_different_byte(encode_utf8(a@), encode_utf8(b@), common.len());
    lemma_bytes_less_is_asymmetric(encode_utf8(a@), encode_utf8(b@));
    lemma_encoding_is_injective(a@, b@);
    lemma_bytes_less_is_irreflexive(encode_utf8(a@));
}

/// A label whose text is the beginning of that of another comes first.
pub proof fn lemma_a_beginning_comes_first(a: Label, b: Label, rest: Seq<u8>)
    requires
        encode_utf8(b@) == encode_utf8(a@) + rest,
        rest.len() > 0,
    ensures
        a.partial_cmp_spec(&b) == Some(Ordering::Less),
        b.partial_cmp_spec(&a) == Some(Ordering::Greater),
{
    lemma_first_different_byte(encode_utf8(a@), encode_utf8(b@), encode_utf8(a@).len());
    lemma_bytes_less_is_asymmetric(encode_utf8(a@), encode_utf8(b@));
    lemma_encoding_is_injective(a@, b@);
    lemma_bytes_less_is_irreflexive(encode_utf8(a@));
}

/// Bytes that agree up to a place, and there are fewer or smaller, stand first.
proof fn lemma_first_different_byte(x: Seq<u8>, y: Seq<u8>, k: nat)
    requires
        k <= x.len(),
        k < y.len(),
        forall|i: int| 0 <= i < k ==> x[i] == y[i],
        k < x.len() ==> x[k as int] < y[k as int],
    ensures
        bytes_less(x, y),
{
    assert(bytes_differ_at(x, y, k as int));
}

} // verus!
