//! The hashtags of a label: which of the matches of the hashtag pattern are
//! tags, the list they are put in, and the part of the list that names a
//! subgraph.

use crate::hash::{is_hashtag, is_hashtag_text, is_subgraph_tag, HashTag};
use crate::pattern::{Found, Matches};
use crate::text::{
    are_chars_of, chars_of, comes_before, is_increasing, is_letter, lemma_increasing_unique,
    lemma_precedes_connected, lemma_precedes_transitive, lemma_word_end, precedes, same_chars,
    word_end,
};
use vstd::prelude::*;

verus! {

/// The text of the whole match of one capture.
pub open spec fn whole_match(capture: Seq<Option<Seq<char>>>) -> Option<Seq<char>> {
    if capture.len() > 0 {
        capture[0]
    } else {
        None
    }
}

/// `tag` was found: it is the whole text of one of the matches in `found`,
/// and it has the shape of a hashtag.
pub open spec fn is_found_tag(found: Found, tag: Seq<char>) -> bool {
    is_hashtag(tag) && exists|i: int|
        0 <= i < found.len() && #[trigger] whole_match(found[i]) == Some(tag)
}

/// `tags` lists the hashtags found: each of them once, in increasing order.
pub open spec fn is_tag_list(tags: Seq<Seq<char>>, found: Found) -> bool {
    &&& is_increasing(tags)
    &&& forall|tag: Seq<char>| #[trigger] tags.contains(tag) <==> is_found_tag(found, tag)
}

/// The list of the hashtags found. [`lemma_tag_list`] shows that there is
/// one list only.
pub open spec fn tag_list(found: Found) -> Seq<Seq<char>> {
    choose|tags: Seq<Seq<char>>| is_tag_list(tags, found)
}

/// The tags that name no subgraph, in the order of `all`.
pub open spec fn ordinary_tags(all: Seq<Seq<char>>) -> Seq<Seq<char>> {
    all.filter(|tag: Seq<char>| !is_subgraph_tag(tag))
}

/// The first tag of `all` that names a subgraph.
pub open spec fn subgraph_of(all: Seq<Seq<char>>) -> Option<Seq<char>> {
    let named = all.filter(|tag: Seq<char>| is_subgraph_tag(tag));
    if named.len() > 0 {
        Some(named[0])
    } else {
        None
    }
}

/// A hashtag begins at place `at` of `text`: there is a `#` there, and an
/// ASCII letter behind it.
pub open spec fn tag_starts(text: Seq<char>, at: int) -> bool {
    0 <= at && at + 1 < text.len() && text[at] == '#' && is_letter(text[at + 1])
}

/// The hashtag that begins at place `at` of `text`: it goes on for as long
/// as letters, digits, `_` and `-` do.
pub open spec fn tag_at(text: Seq<char>, at: int) -> Seq<char> {
    text.subrange(at, word_end(text, at + 2))
}

/// `tag` is a hashtag of `text`: it begins at some place of it.
pub open spec fn occurs_as_tag(text: Seq<char>, tag: Seq<char>) -> bool {
    exists|at: int| tag_starts(text, at) && tag == #[trigger] tag_at(text, at)
}

/// What the hashtag pattern is meant to find in `text`: the tags found are
/// the hashtags of `text`. Nothing in this library proves it of a search;
/// the laws that need it ask for it.
pub open spec fn finds_hashtags(found: Found, text: Seq<char>) -> bool {
    forall|tag: Seq<char>| is_found_tag(found, tag) <==> occurs_as_tag(text, tag)
}

/// There is one list of the hashtags found, and no other.
pub proof fn lemma_tag_list(tags: Seq<Seq<char>>, found: Found)
    requires
        is_tag_list(tags, found),
    ensures
        tags == tag_list(found),
{
    let other = tag_list(found);
    assert(is_tag_list(other, found));
    assert forall|tag: Seq<char>| tags.contains(tag) <==> other.contains(tag) by {
        assert(tags.contains(tag) <==> is_found_tag(found, tag));
        assert(other.contains(tag) <==> is_found_tag(found, tag));
    }
    lemma_increasing_unique(tags, other);
}

/// Whatever was found, there is a list of the hashtags found.
pub proof fn lemma_tag_list_exists(found: Found)
    ensures
        is_tag_list(tag_list(found), found),
{
    lemma_listed(found);
}

/// The two parts that the tags are split into: the ordinary tags are those
/// of `all` that name no subgraph, in the same order; the subgraph is one of
/// `all` that names one.
pub proof fn lemma_split_tags(all: Seq<Seq<char>>)
    ensures
        forall|i: int|
            0 <= i < ordinary_tags(all).len() ==> all.contains(#[trigger] ordinary_tags(all)[i])
                && !is_subgraph_tag(ordinary_tags(all)[i]),
        is_increasing(all) ==> is_increasing(ordinary_tags(all)),
        subgraph_of(all) matches Some(tag) ==> all.contains(tag) && is_subgraph_tag(tag),
        subgraph_of(all) is None <==> forall|i: int|
            0 <= i < all.len() ==> !is_subgraph_tag(#[trigger] all[i]),
    decreases all.len(),
{
    reveal(Seq::filter);
    let ordinary = |tag: Seq<char>| !is_subgraph_tag(tag);
    let named = |tag: Seq<char>| is_subgraph_tag(tag);
    if all.len() > 0 {
        let rest = all.drop_last();
        lemma_split_tags(rest);
        assert forall|i: int| 0 <= i < ordinary_tags(all).len() implies all.contains(
            #[trigger] ordinary_tags(all)[i],
        ) && !is_subgraph_tag(ordinary_tags(all)[i]) by {
            if i < ordinary_tags(rest).len() {
                let tag = ordinary_tags(rest)[i];
                assert(rest.contains(tag));
                let k = choose|k: int| 0 <= k < rest.len() && rest[k] == tag;
                assert(all[k] == tag);
            } else {
                assert(all[all.len() - 1] == all.last());
            }
        }
        if is_increasing(all) {
            assert(is_increasing(rest)) by {
                assert forall|i: int, j: int| 0 <= i < j < rest.len() implies precedes(
                    #[trigger] rest[i],
                    #[trigger] rest[j],
                ) by {
                    assert(precedes(all[i], all[j]));
                }
            }
            let kept = ordinary_tags(all);
            assert forall|i: int, j: int| 0 <= i < j < kept.len() implies precedes(
                #[trigger] kept[i],
                #[trigger] kept[j],
            ) by {
                if j < ordinary_tags(rest).len() {
                    assert(precedes(ordinary_tags(rest)[i], ordinary_tags(rest)[j]));
                } else {
                    let tag = ordinary_tags(rest)[i];
                    assert(rest.contains(tag));
                    let k = choose|k: int| 0 <= k < rest.len() && rest[k] == tag;
                    assert(precedes(all[k], all[all.len() - 1]));
                }
            }
        }
        if let Some(tag) = subgraph_of(all) {
            if rest.filter(named).len() > 0 {
                assert(rest.contains(tag));
                let k = choose|k: int| 0 <= k < rest.len() && rest[k] == tag;
                assert(all[k] == tag);
            } else {
                assert(all[all.len() - 1] == tag);
            }
        }
        if subgraph_of(all) is None {
            assert forall|i: int| 0 <= i < all.len() implies !is_subgraph_tag(
                #[trigger] all[i],
            ) by {
                if i < rest.len() {
                    assert(rest[i] == all[i]);
                }
            }
        } else if rest.filter(named).len() == 0 {
            assert(is_subgraph_tag(all[all.len() - 1]));
        } else {
            let k = choose|k: int| 0 <= k < rest.len() && is_subgraph_tag(#[trigger] rest[k]);
            assert(all[k] == rest[k]);
        }
    }
}

/// What begins where a hashtag begins has the shape of a hashtag.
pub proof fn lemma_tag_at(text: Seq<char>, at: int)
    requires
        tag_starts(text, at),
    ensures
        is_hashtag(tag_at(text, at)),
{
    lemma_word_end(text, at + 2);
}

/// One more match adds its own text to the tags found, and nothing else.
proof fn lemma_found_tag_step(found: Found, i: int, tag: Seq<char>)
    requires
        0 <= i < found.len(),
    ensures
        is_found_tag(found.take(i + 1), tag) <==> is_found_tag(found.take(i), tag) || (is_hashtag(
            tag,
        ) && whole_match(found[i]) == Some(tag)),
{
    let before = found.take(i);
    let after = found.take(i + 1);
    if is_found_tag(before, tag) {
        let k = choose|k: int|
            0 <= k < before.len() && #[trigger] whole_match(before[k]) == Some(tag);
        assert(whole_match(after[k]) == Some(tag));
    }
    if is_hashtag(tag) && whole_match(found[i]) == Some(tag) {
        assert(whole_match(after[i]) == Some(tag));
    }
    if is_found_tag(after, tag) {
        let k = choose|k: int|
            0 <= k < after.len() && #[trigger] whole_match(after[k]) == Some(tag);
        if k < i {
            assert(whole_match(before[k]) == Some(tag));
        }
    }
}

/// A string put into an increasing sequence at its place leaves the
/// sequence increasing, and adds itself to what the sequence holds.
proof fn lemma_insert_in_order(s: Seq<Seq<char>>, at: int, x: Seq<char>)
    requires
        is_increasing(s),
        0 <= at <= s.len(),
        forall|k: int| 0 <= k < at ==> precedes(#[trigger] s[k], x),
        at < s.len() ==> precedes(x, s[at]),
    ensures
        is_increasing(s.insert(at, x)),
        forall|t: Seq<char>| #[trigger] s.insert(at, x).contains(t) <==> t == x || s.contains(t),
{
    let r = s.insert(at, x);
    assert forall|i: int, j: int| 0 <= i < j < r.len() implies precedes(
        #[trigger] r[i],
        #[trigger] r[j],
    ) by {
        if j < at {
            assert(precedes(s[i], s[j]));
        } else if j == at {
            assert(precedes(s[i], x));
        } else if i < at {
            assert(precedes(s[i], s[j - 1]));
        } else if i == at {
            if j - 1 > at {
                assert(precedes(s[at], s[j - 1]));
                lemma_precedes_transitive(x, s[at], s[j - 1]);
            }
        } else {
            assert(precedes(s[i - 1], s[j - 1]));
        }
    }
    assert forall|t: Seq<char>| #[trigger] r.contains(t) <==> t == x || s.contains(t) by {
        if r.contains(t) {
            let k = choose|k: int| 0 <= k < r.len() && r[k] == t;
            if k < at {
                assert(s[k] == t);
            } else if k > at {
                assert(s[k - 1] == t);
            }
        }
        if t == x {
            assert(r[at] == t);
        }
        if s.contains(t) {
            let k = choose|k: int| 0 <= k < s.len() && s[k] == t;
            if k < at {
                assert(r[k] == t);
            } else {
                assert(r[k + 1] == t);
            }
        }
    }
}

/// Where `x` goes in the increasing sequence `s`: behind the strings that
/// come before it.
spec fn place_of(s: Seq<Seq<char>>, x: Seq<char>) -> int
    decreases s.len(),
{
    if s.len() == 0 {
        0
    } else if precedes(s.last(), x) {
        s.len() as int
    } else {
        place_of(s.drop_last(), x)
    }
}

proof fn lemma_place_of(s: Seq<Seq<char>>, x: Seq<char>)
    requires
        is_increasing(s),
    ensures
        0 <= place_of(s, x) <= s.len(),
        forall|k: int| 0 <= k < place_of(s, x) ==> precedes(#[trigger] s[k], x),
        place_of(s, x) < s.len() ==> !precedes(s[place_of(s, x)], x),
    decreases s.len(),
{
    if s.len() > 0 {
        if precedes(s.last(), x) {
            assert forall|k: int| 0 <= k < s.len() implies precedes(#[trigger] s[k], x) by {
                if k < s.len() - 1 {
                    assert(precedes(s[k], s[s.len() - 1]));
                    lemma_precedes_transitive(s[k], s.last(), x);
                }
            }
        } else {
            let rest = s.drop_last();
            assert forall|i: int, j: int| 0 <= i < j < rest.len() implies precedes(
                #[trigger] rest[i],
                #[trigger] rest[j],
            ) by {
                assert(precedes(s[i], s[j]));
            }
            lemma_place_of(rest, x);
            assert forall|k: int| 0 <= k < place_of(s, x) implies precedes(#[trigger] s[k], x) by {
                assert(precedes(rest[k], x));
            }
            if place_of(s, x) < rest.len() {
                assert(rest[place_of(s, x)] == s[place_of(s, x)]);
            }
        }
    }
}

/// A list of the hashtags found, built match by match.
spec fn listed(found: Found) -> Seq<Seq<char>>
    decreases found.len(),
{
    if found.len() == 0 {
        Seq::empty()
    } else {
        let earlier = listed(found.drop_last());
        match whole_match(found.last()) {
            Some(tag) => if is_hashtag(tag) && !earlier.contains(tag) {
                earlier.insert(place_of(earlier, tag), tag)
            } else {
                earlier
            },
            None => earlier,
        }
    }
}

proof fn lemma_listed(found: Found)
    ensures
        is_tag_list(listed(found), found),
    decreases found.len(),
{
    let tags = listed(found);
    if found.len() == 0 {
        assert forall|tag: Seq<char>| #[trigger]
            tags.contains(tag) <==> is_found_tag(found, tag) by {}
    } else {
        let rest = found.drop_last();
        let earlier = listed(rest);
        let n = found.len() - 1;
        lemma_listed(rest);
        assert(found.take(n) =~= rest);
        assert(found.take(n + 1) =~= found);
        assert forall|tag: Seq<char>|
            is_found_tag(found, tag) <==> is_found_tag(rest, tag) || (is_hashtag(tag)
                && whole_match(found[n]) == Some(tag)) by {
            lemma_found_tag_step(found, n, tag);
        }
        match whole_match(found.last()) {
            Some(new) => {
                if is_hashtag(new) && !earlier.contains(new) {
                    let at = place_of(earlier, new);
                    lemma_place_of(earlier, new);
                    if at < earlier.len() {
                        assert(earlier.contains(earlier[at]));
                        lemma_precedes_connected(earlier[at], new);
                    }
                    lemma_insert_in_order(earlier, at, new);
                }
                assert forall|tag: Seq<char>| #[trigger]
                    tags.contains(tag) <==> is_found_tag(found, tag) by {
                    assert(earlier.contains(tag) <==> is_found_tag(rest, tag));
                }
            },
            None => {
                assert forall|tag: Seq<char>| #[trigger]
                    tags.contains(tag) <==> is_found_tag(found, tag) by {
                    assert(earlier.contains(tag) <==> is_found_tag(rest, tag));
                }
            },
        }
    }
}

/// Puts the tag with the text `text`, whose characters are `chars`, at its
/// place in `tags`, unless `tags` holds it already. `keys` holds the
/// characters of each tag of `tags`.
fn insert_tag(tags: &mut Vec<HashTag>, keys: &mut Vec<Vec<char>>, text: &str, chars: Vec<char>)
    requires
        chars@ == text@,
        are_chars_of(old(keys)@, old(tags).deep_view()),
        is_increasing(old(tags).deep_view()),
    ensures
        are_chars_of(final(keys)@, final(tags).deep_view()),
        is_increasing(final(tags).deep_view()),
        forall|t: Seq<char>| #[trigger]
            final(tags).deep_view().contains(t) <==> t == text@ || old(tags).deep_view().contains(
                t,
            ),
{
    let ghost s = tags.deep_view();
    let mut at: usize = 0;
    while at < keys.len() && comes_before(&keys[at], &chars)
        invariant
            at <= keys@.len(),
            are_chars_of(keys@, s),
            forall|k: int| 0 <= k < at ==> precedes(#[trigger] s[k], chars@),
        decreases keys@.len() - at,
    {
        at += 1;
    }
    if at < keys.len() {
        if same_chars(&keys[at], &chars) {
            assert(s.contains(chars@));
            return ;
        }
        proof {
            lemma_precedes_connected(s[at as int], chars@);
        }
    }
    proof {
        lemma_insert_in_order(s, at as int, chars@);
    }
    tags.insert(at, HashTag::new(text));
    keys.insert(at, chars);
    assert(tags.deep_view() =~= s.insert(at as int, text@));
}

/// The hashtags among the matches in `found`: the whole text of each match
/// that has the shape of a hashtag, each tag once, in increasing order.
pub fn hashtags_of(found: &Matches) -> (tags: Vec<HashTag>)
    ensures
        is_tag_list(tags.deep_view(), found.deep_view()),
        tags.deep_view() == tag_list(found.deep_view()),
{
    let mut tags: Vec<HashTag> = Vec::new();
    let mut keys: Vec<Vec<char>> = Vec::new();
    let ghost all = found.deep_view();
    assert(!exists|tag: Seq<char>| tags.deep_view().contains(tag));
    let mut i: usize = 0;
    while i < found.len()
        invariant
            i <= found@.len(),
            all == found.deep_view(),
            are_chars_of(keys@, tags.deep_view()),
            is_tag_list(tags.deep_view(), all.take(i as int)),
        decreases found@.len() - i,
    {
        let ghost before = tags.deep_view();
        let capture = &found[i];
        assert(all[i as int] == capture.deep_view());
        assert forall|tag: Seq<char>|
            is_found_tag(all.take(i + 1), tag) <==> is_found_tag(all.take(i as int), tag) || (
            is_hashtag(tag) && whole_match(all[i as int]) == Some(tag)) by {
            lemma_found_tag_step(all, i as int, tag);
        }
        if capture.len() > 0 {
            assert(capture.deep_view()[0] == capture@[0].deep_view());
            if let Some(text) = &capture[0] {
                let chars = chars_of(text.as_str());
                if is_hashtag_text(&chars) {
                    insert_tag(&mut tags, &mut keys, text.as_str(), chars);
                }
            }
        }
        assert forall|tag: Seq<char>| #[trigger]
            tags.deep_view().contains(tag) <==> is_found_tag(all.take(i + 1), tag) by {
            assert(before.contains(tag) <==> is_found_tag(all.take(i as int), tag));
        }
        i += 1;
    }
    assert(all.take(found@.len() as int) =~= all);
    proof {
        lemma_tag_list(tags.deep_view(), all);
    }
    tags
}

/// Parts the hashtags found into those that annotate the node and the one
/// that names its subgraph. Where several name a subgraph, the first is
/// kept and the others are dropped.
pub fn split_subgraph(all: &Vec<HashTag>) -> (out: (Vec<HashTag>, Option<HashTag>))
    ensures
        out.0.deep_view() == ordinary_tags(all.deep_view()),
        out.1.deep_view() == subgraph_of(all.deep_view()),
{
    let mut tags: Vec<HashTag> = Vec::new();
    let mut subgraph: Option<HashTag> = None;
    let ghost views = all.deep_view();
    let ghost ordinary = |tag: Seq<char>| !is_subgraph_tag(tag);
    let ghost named = |tag: Seq<char>| is_subgraph_tag(tag);
    proof {
        reveal(Seq::filter);
        assert(views.take(0) =~= Seq::empty());
        assert(tags.deep_view() =~= Seq::empty());
    }
    let mut i: usize = 0;
    while i < all.len()
        invariant
            i <= all@.len(),
            views == all.deep_view(),
            ordinary == |tag: Seq<char>| !is_subgraph_tag(tag),
            named == |tag: Seq<char>| is_subgraph_tag(tag),
            tags.deep_view() == views.take(i as int).filter(ordinary),
            subgraph.deep_view() == if views.take(i as int).filter(named).len() > 0 {
                Some(views.take(i as int).filter(named)[0])
            } else {
                None
            },
        decreases all@.len() - i,
    {
        proof {
            reveal(Seq::filter);
            assert(views.take(i + 1).drop_last() =~= views.take(i as int));
            assert(views.take(i + 1).last() == all@[i as int]@);
        }
        let ghost kept = tags.deep_view();
        if all[i].is_subgraph() {
            if subgraph.is_none() {
                subgraph = Some(all[i].clone());
            }
        } else {
            tags.push(all[i].clone());
            assert(tags.deep_view() =~= kept.push(all@[i as int]@));
        }
        i += 1;
    }
    assert(views.take(all@.len() as int) =~= views);
    (tags, subgraph)
}

} // verus!
