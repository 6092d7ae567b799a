//! Labels, which measurements are grouped by.
use std::cmp::Ordering;
use std::sync::Arc;
use vstd::prelude::*;
use vstd::std_specs::cmp::PartialEqSpecImpl;
use vstd::std_specs::cmp::PartialOrdSpecImpl;
use vstd::std_specs::convert::FromSpecImpl;
use vstd::utf8::encode_utf8;

use crate::order::{
    bytes_less, compare_bytes, equivalent, lemma_bytes_are_connected,
    lemma_bytes_less_is_asymmetric, lemma_bytes_less_is_irreflexive,
    lemma_bytes_less_is_transitive, precedes, total_order,
};

verus! {

/// A cheap-to-clone string type. Internally this can be an `&'static str` or a
/// `String` stored within an [`Arc`].
pub enum Label {
    /// A static reference to a string slice.
    Static(&'static str),
    /// A reference-counted String value.
    Owned(Arc<String>),
}

impl View for Label {
    type V = Seq<char>;

    /// The text of the label.
    open spec fn view(&self) -> Seq<char> {
        match self {
            Label::Static(text) => text@,
            Label::Owned(text) => text@,
        }
    }
}

impl Clone for Label {
    fn clone(&self) -> (label: Self)
        ensures
            label == *self,
    {
        match self {
            Label::Static(text) => Label::Static(text),
            Label::Owned(text) => Label::Owned(text.clone()),
        }
    }
}

impl std::ops::Deref for Label {
    type Target = str;

    fn deref(&self) -> (text: &str)
        ensures
            text@ == self@,
    {
        self.text()
    }
}

/// Renders `text` as [`std::fmt::Debug`] does for a string slice: in double quotes, with the
/// characters that need it escaped. The rendering is a function of the text alone.
#[verifier::external_body]
fn debug_text(text: &str) -> (rendered: String)
    ensures
        rendered@ == debug_rendering(text@),
{
    format!("{:?}", text)
}

/// What [`std::fmt::Debug`] prints of a string slice that holds `text`.
pub uninterp spec fn debug_rendering(text: Seq<char>) -> Seq<char>;

impl Label {
    /// The text of the label.
    pub fn text(&self) -> (text: &str)
        ensures
            text@ == self@,
    {
        match self {
            Label::Static(text) => text,
            Label::Owned(text) => text.as_str(),
        }
    }

    /// What the label hashes as: the bytes of its text, so that labels that compare equal hash
    /// alike.
    pub fn hashed_bytes(&self) -> (bytes: &[u8])
        ensures
            bytes@ == encode_utf8(self@),
    {
        self.text().as_bytes()
    }

    /// The text of the label as a string of its own.
    pub fn to_string(&self) -> (text: String)
        ensures
            text@ == self@,
    {
        self.text().to_owned()
    }

    /// The text of the label as a debugging aid: quoted and escaped.
    pub fn debug_string(&self) -> (text: String)
        ensures
            text@ == debug_rendering(self@),
    {
        debug_text(self.text())
    }
}

impl FromSpecImpl<&'static str> for Label {
    open spec fn obeys_from_spec() -> bool {
        true
    }

    open spec fn from_spec(label: &'static str) -> Self {
        Label::Static(label)
    }
}

impl From<&'static str> for Label {
    fn from(label: &'static str) -> (r: Self) {
        Label::Static(label)
    }
}

impl FromSpecImpl<String> for Label {
    open spec fn obeys_from_spec() -> bool {
        true
    }

    open spec fn from_spec(label: String) -> Self {
        Label::Owned(Arc::new(label))
    }
}

impl From<String> for Label {
    fn from(label: String) -> (r: Self) {
        Label::Owned(Arc::new(label))
    }
}

/// Hands `bytes` to [`std::hash::Hasher::write`]. What the hasher does with them is up to the
/// hasher, so nothing is claimed of its state afterwards.
#[verifier::external_body]
fn hash_bytes<H: std::hash::Hasher>(bytes: &[u8], state: &mut H) {
    state.write(bytes);
}

impl std::hash::Hash for Label {
    /// Hands [`Label::hashed_bytes`] to the hasher.
    fn hash<H: std::hash::Hasher>(&self, state: &mut H) {
        hash_bytes(self.hashed_bytes(), state);
    }
}

impl PartialEqSpecImpl for Label {
    open spec fn obeys_eq_spec() -> bool {
        true
    }

    open spec fn eq_spec(&self, other: &Label) -> bool {
        self@ == other@
    }
}

impl PartialEq for Label {
    /// Compares the contained strings.
    fn eq(&self, other: &Label) -> (equal: bool) {
        let (left, right) = (self.text().as_bytes(), other.text().as_bytes());
        let (equal, _) = compare_bytes(left, right);
        proof {
            lemma_encoding_is_injective(self@, other@);
        }
        equal
    }
}

impl Eq for Label {

}

impl PartialOrdSpecImpl for Label {
    open spec fn obeys_partial_cmp_spec() -> bool {
        true
    }

    open spec fn partial_cmp_spec(&self, other: &Label) -> Option<Ordering> {
        if self@ == other@ {
            Some(Ordering::Equal)
        } else if bytes_less(encode_utf8(self@), encode_utf8(other@)) {
            Some(Ordering::Less)
        } else {
            Some(Ordering::Greater)
        }
    }
}

impl PartialOrd for Label {
    /// Orders the contained strings by their bytes.
    fn partial_cmp(&self, other: &Label) -> (order: Option<Ordering>) {
        let (left, right) = (self.text().as_bytes(), other.text().as_bytes());
        let (equal, less) = compare_bytes(left, right);
        proof {
            lemma_encoding_is_injective(self@, other@);
        }
        if equal {
            Some(Ordering::Equal)
        } else if less {
            Some(Ordering::Less)
        } else {
            Some(Ordering::Greater)
        }
    }
}

/// Two texts with the same bytes are the same text.
pub proof fn lemma_encoding_is_injective(left: Seq<char>, right: Seq<char>)
    ensures
        encode_utf8(left) == encode_utf8(right) <==> left == right,
{
    vstd::utf8::encode_utf8_decode_utf8(left);
    vstd::utf8::encode_utf8_decode_utf8(right);
}

/// Labels are totally ordered by their text.
pub proof fn lemma_labels_are_totally_ordered()
    ensures
        total_order::<Label>(),
{
    assert forall|a: Label, b: Label| precedes(a, b) || precedes(b, a) || equivalent(a, b) by {
        lemma_encoding_is_injective(a@, b@);
        lemma_bytes_are_connected(encode_utf8(a@), encode_utf8(b@));
    }
    assert forall|a: Label, b: Label| precedes(a, b) implies !precedes(b, a) && !equivalent(a, b) by {
        lemma_bytes_less_is_asymmetric(encode_utf8(a@), encode_utf8(b@));
    }
    assert forall|a: Label, b: Label, c: Label|
        precedes(a, b) && precedes(b, c) implies precedes(a, c) by {
        lemma_bytes_less_is_transitive(encode_utf8(a@), encode_utf8(b@), encode_utf8(c@));
        lemma_bytes_less_is_irreflexive(encode_utf8(a@));
    }
}

} // verus!
