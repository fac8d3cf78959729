//! Hashtags: the `#tag` annotations of a label.

use crate::text::{
    chars_of, comes_before, is_letter, is_letter_char, is_word, is_word_char,
    lemma_precedes_connected, lemma_precedes_irreflexive, precedes, starts_with,
};
use std::cmp::Ordering;
use vstd::prelude::*;
use vstd::std_specs::cmp::{PartialEqSpec, PartialOrdSpec};

verus! {

/// The shape of a hashtag: `#`, one ASCII letter, then letters, digits, `_`
/// and `-`.
pub open spec fn is_hashtag(t: Seq<char>) -> bool {
    &&& t.len() >= 2
    &&& t[0] == '#'
    &&& is_letter(t[1])
    &&& forall|i: int| 2 <= i < t.len() ==> is_word(#[trigger] t[i])
}

/// The prefix that marks a tag as naming a subgraph.
pub open spec fn subgraph_prefix() -> Seq<char> {
    seq!['#', 'S', 'G', '_']
}

/// A tag that names a subgraph begins with `#SG_`.
pub open spec fn is_subgraph_tag(t: Seq<char>) -> bool {
    subgraph_prefix().is_prefix_of(t)
}

/// A hashtag. Its view is its text, `#` included. Two hashtags are equal
/// when their texts are, and they are ordered as their texts are: see
/// [`precedes`].
#[derive(Debug, Eq, Ord, Hash)]
pub struct HashTag {
    text: String,
}

impl PartialEq for HashTag {
    fn eq(&self, other: &Self) -> (out: bool) {
        self.text == other.text
    }
}

impl vstd::std_specs::cmp::PartialEqSpecImpl for HashTag {
    open spec fn obeys_eq_spec() -> bool {
        true
    }

    open spec fn eq_spec(&self, other: &Self) -> bool {
        self@ == other@
    }
}

impl View for HashTag {
    type V = Seq<char>;

    closed spec fn view(&self) -> Seq<char> {
        self.text@
    }
}

impl PartialOrd for HashTag {
    fn partial_cmp(&self, other: &Self) -> (out: Option<Ordering>) {
        let mine = chars_of(self.text.as_str());
        let theirs = chars_of(other.text.as_str());
        if comes_before(&mine, &theirs) {
            Some(Ordering::Less)
        } else if comes_before(&theirs, &mine) {
            Some(Ordering::Greater)
        } else {
            Some(Ordering::Equal)
        }
    }
}

impl vstd::std_specs::cmp::PartialOrdSpecImpl for HashTag {
    open spec fn obeys_partial_cmp_spec() -> bool {
        true
    }

    open spec fn partial_cmp_spec(&self, other: &Self) -> Option<Ordering> {
        if precedes(self@, other@) {
            Some(Ordering::Less)
        } else if precedes(other@, self@) {
            Some(Ordering::Greater)
        } else {
            Some(Ordering::Equal)
        }
    }
}

impl DeepView for HashTag {
    type V = Seq<char>;

    open spec fn deep_view(&self) -> Seq<char> {
        self@
    }
}

impl Clone for HashTag {
    fn clone(&self) -> (out: Self)
        ensures
            out@ == self@,
    {
        HashTag { text: self.text.clone() }
    }
}

impl HashTag {
    /// A tag with the given text. The text is taken as it is: see
    /// [`HashTag::is_well_formed`].
    pub fn new(text: &str) -> (tag: HashTag)
        ensures
            tag@ == text@,
    {
        HashTag { text: text.to_owned() }
    }

    /// The text of the tag.
    pub fn as_str(&self) -> (out: &str)
        ensures
            out@ == self@,
    {
        self.text.as_str()
    }

    /// The text of the tag, as a new string.
    pub fn to_string(&self) -> (out: String)
        ensures
            out@ == self@,
    {
        self.text.clone()
    }

    /// The text has the shape of a hashtag.
    pub open spec fn is_well_formed(&self) -> bool {
        is_hashtag(self@)
    }

    /// Whether the tag names a subgraph.
    pub fn is_subgraph(&self) -> (out: bool)
        ensures
            out == is_subgraph_tag(self@),
    {
        let chars = chars_of(self.text.as_str());
        has_subgraph_prefix(&chars)
    }
}

/// The order of hashtags agrees with their equality: neither of two
/// hashtags comes before the other exactly when they are equal.
pub proof fn lemma_equal_in_order(a: HashTag, b: HashTag)
    ensures
        a.partial_cmp_spec(&b) == Some(Ordering::Equal) <==> a.eq_spec(&b),
{
    lemma_precedes_connected(a@, b@);
    lemma_precedes_irreflexive(a@);
}

/// Whether `chars` has the shape of a hashtag.
pub fn is_hashtag_text(chars: &Vec<char>) -> (out: bool)
    ensures
        out == is_hashtag(chars@),
{
    if chars.len() < 2 || chars[0] != '#' || !is_letter_char(chars[1]) {
        return false;
    }
    let mut i: usize = 2;
    while i < chars.len()
        invariant
            2 <= i <= chars@.len(),
            forall|k: int| 2 <= k < i ==> is_word(#[trigger] chars@[k]),
        decreases chars@.len() - i,
    {
        if !is_word_char(chars[i]) {
            return false;
        }
        i += 1;
    }
    true
}

/// Whether `chars` begins with `#SG_`.
pub fn has_subgraph_prefix(chars: &Vec<char>) -> (out: bool)
    ensures
        out == is_subgraph_tag(chars@),
{
    let prefix = vec!['#', 'S', 'G', '_'];
    assert(prefix@ =~= subgraph_prefix());
    starts_with(chars, &prefix)
}

} // verus!
