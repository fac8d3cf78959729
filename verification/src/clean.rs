//! The text to display for a label: the label without the white space
//! around it and without the hashtags at its end.

use crate::hash::{is_hashtag, HashTag};
use crate::text::{
    are_chars_of, chars_of, ends_with_at, is_letter, is_space, is_space_char, is_trimmed,
    is_word, leading_spaces, lemma_trim_start, trim, trim_end, trim_start,
};
use vstd::prelude::*;

verus! {

/// The first of `tags` that ends `text`. The empty tag ends nothing.
pub open spec fn trailing_tag(text: Seq<char>, tags: Seq<Seq<char>>) -> Option<Seq<char>>
    decreases tags.len(),
{
    if tags.len() == 0 {
        None
    } else if tags[0].len() > 0 && tags[0].is_suffix_of(text) {
        Some(tags[0])
    } else {
        trailing_tag(text, tags.drop_first())
    }
}

/// `text` without its trailing run: white space and tags are taken from its
/// end until it ends with neither.
pub open spec fn strip_trailing(text: Seq<char>, tags: Seq<Seq<char>>) -> Seq<char>
    decreases text.len(),
    via strip_trailing_shortens
{
    if text.len() > 0 && is_space(text.last()) {
        strip_trailing(text.drop_last(), tags)
    } else {
        match trailing_tag(text, tags) {
            Some(tag) => strip_trailing(text.take(text.len() - tag.len()), tags),
            None => text,
        }
    }
}

#[via_fn]
proof fn strip_trailing_shortens(text: Seq<char>, tags: Seq<Seq<char>>) {
    lemma_trailing_tag(text, tags);
}

/// The text to display for `input`: `input` without leading white space and
/// without its trailing run of white space and tags.
pub open spec fn cleaned(input: Seq<char>, tags: Seq<Seq<char>>) -> Seq<char> {
    strip_trailing(trim_start(input), tags)
}

/// `run` is a trailing run: it is made of white space and of tags of
/// `tags`, and of nothing else.
pub open spec fn is_trailing_run(run: Seq<char>, tags: Seq<Seq<char>>) -> bool
    decreases run.len(),
{
    if run.len() == 0 {
        true
    } else {
        ||| is_space(run.last()) && is_trailing_run(run.drop_last(), tags)
        ||| exists|i: int|
            0 <= i < tags.len() && 0 < (#[trigger] tags[i]).len() <= run.len()
                && tags[i].is_suffix_of(run) && is_trailing_run(
                run.take(run.len() - tags[i].len()),
                tags,
            )
    }
}

/// `label` ends with none of `tags`.
pub open spec fn ends_with_no_tag(label: Seq<char>, tags: Seq<Seq<char>>) -> bool {
    forall|i: int|
        0 <= i < tags.len() ==> !((#[trigger] tags[i]).len() > 0 && tags[i].is_suffix_of(label))
}

/// `label` is clean: there is no white space at either end of it and none
/// of `tags` at its end.
pub open spec fn is_clean(label: Seq<char>, tags: Seq<Seq<char>>) -> bool {
    is_trimmed(label) && ends_with_no_tag(label, tags)
}

/// The tag that `trailing_tag` finds is one of `tags`, is not empty and ends
/// `text`.
pub proof fn lemma_trailing_tag(text: Seq<char>, tags: Seq<Seq<char>>)
    ensures
        trailing_tag(text, tags) matches Some(tag) ==> tags.contains(tag) && 0 < tag.len()
            <= text.len() && tag.is_suffix_of(text),
        trailing_tag(text, tags) is None ==> forall|i: int|
            0 <= i < tags.len() ==> !((#[trigger] tags[i]).len() > 0 && tags[i].is_suffix_of(text)),
    decreases tags.len(),
{
    if tags.len() > 0 && !(tags[0].len() > 0 && tags[0].is_suffix_of(text)) {
        let rest = tags.drop_first();
        lemma_trailing_tag(text, rest);
        if let Some(tag) = trailing_tag(text, rest) {
            let k = choose|k: int| 0 <= k < rest.len() && rest[k] == tag;
            assert(tags[k + 1] == tag);
        } else {
            assert forall|i: int| 0 <= i < tags.len() implies !((#[trigger] tags[i]).len() > 0
                && tags[i].is_suffix_of(text)) by {
                if i > 0 {
                    assert(rest[i - 1] == tags[i]);
                }
            }
        }
    }
}

/// What `strip_trailing` leaves begins `text` and ends with neither white
/// space nor a tag.
pub proof fn lemma_strip_trailing(text: Seq<char>, tags: Seq<Seq<char>>)
    ensures
        strip_trailing(text, tags).is_prefix_of(text),
        strip_trailing(text, tags).len() > 0 ==> !is_space(strip_trailing(text, tags).last()),
        ends_with_no_tag(strip_trailing(text, tags), tags),
    decreases text.len(),
{
    lemma_trailing_tag(text, tags);
    if text.len() > 0 && is_space(text.last()) {
        lemma_strip_trailing(text.drop_last(), tags);
    } else if let Some(tag) = trailing_tag(text, tags) {
        lemma_strip_trailing(text.take(text.len() - tag.len()), tags);
    }
}

/// The text to display is clean: no white space is left at either end of
/// it, and no tag at its end. It begins the input without its leading white
/// space.
pub proof fn lemma_cleaned_is_clean(input: Seq<char>, tags: Seq<Seq<char>>)
    ensures
        is_clean(cleaned(input, tags), tags),
        cleaned(input, tags).is_prefix_of(trim_start(input)),
{
    lemma_strip_trailing(trim_start(input), tags);
    lemma_trim_start(input);
}

/// What `strip_trailing` takes from the end of `text` is a trailing run.
pub proof fn lemma_strip_trailing_takes_run(text: Seq<char>, tags: Seq<Seq<char>>)
    ensures
        strip_trailing(text, tags).len() <= text.len(),
        is_trailing_run(text.skip(strip_trailing(text, tags).len() as int), tags),
    decreases text.len(),
{
    lemma_trailing_tag(text, tags);
    lemma_strip_trailing(text, tags);
    let kept = strip_trailing(text, tags).len() as int;
    let run = text.skip(kept);
    if text.len() > 0 && is_space(text.last()) {
        let shorter = text.drop_last();
        lemma_strip_trailing_takes_run(shorter, tags);
        assert(run.drop_last() =~= shorter.skip(kept));
    } else if let Some(tag) = trailing_tag(text, tags) {
        let shorter = text.take(text.len() - tag.len());
        lemma_strip_trailing_takes_run(shorter, tags);
        let i = choose|i: int| 0 <= i < tags.len() && tags[i] == tag;
        assert(run.take(run.len() - tag.len()) =~= shorter.skip(kept));
        assert(tag =~= run.subrange(run.len() - tag.len(), run.len() as int));
        assert(tags[i].is_suffix_of(run));
    }
}

/// The text to display is what is left of the input without its leading
/// white space when a trailing run has been taken from it.
pub proof fn lemma_cleaned_takes_run(input: Seq<char>, tags: Seq<Seq<char>>)
    ensures
        cleaned(input, tags).len() <= trim_start(input).len(),
        trim_start(input) == cleaned(input, tags) + trim_start(input).skip(
            cleaned(input, tags).len() as int,
        ),
        is_trailing_run(trim_start(input).skip(cleaned(input, tags).len() as int), tags),
{
    let text = trim_start(input);
    lemma_strip_trailing_takes_run(text, tags);
    lemma_strip_trailing(text, tags);
    assert(text =~= cleaned(input, tags) + text.skip(cleaned(input, tags).len() as int));
}

/// A trailing run of hashtags and white space begins with white space or
/// with the `#` of a hashtag.
pub proof fn lemma_run_begins(run: Seq<char>, tags: Seq<Seq<char>>)
    requires
        forall|i: int| 0 <= i < tags.len() ==> is_hashtag(#[trigger] tags[i]),
        is_trailing_run(run, tags),
        run.len() > 0,
    ensures
        is_space(run[0]) || run[0] == '#',
    decreases run.len(),
{
    if is_space(run.last()) && is_trailing_run(run.drop_last(), tags) {
        if run.len() > 1 {
            lemma_run_begins(run.drop_last(), tags);
        }
    } else {
        let i = choose|i: int|
            0 <= i < tags.len() && 0 < (#[trigger] tags[i]).len() <= run.len()
                && tags[i].is_suffix_of(run) && is_trailing_run(
                run.take(run.len() - tags[i].len()),
                tags,
            );
        let tag = tags[i];
        let before = run.take(run.len() - tag.len());
        assert(is_hashtag(tag));
        if before.len() > 0 {
            lemma_run_begins(before, tags);
        } else {
            assert(run.subrange(run.len() - tag.len(), run.len() as int)[0] == run[0]);
        }
    }
}

/// A trailing run of hashtags and white space holds nothing but white
/// space, `#`, letters, digits, `_` and `-`.
pub proof fn lemma_run_holds(run: Seq<char>, tags: Seq<Seq<char>>)
    requires
        forall|i: int| 0 <= i < tags.len() ==> is_hashtag(#[trigger] tags[i]),
        is_trailing_run(run, tags),
    ensures
        forall|k: int|
            0 <= k < run.len() ==> is_space(#[trigger] run[k]) || run[k] == '#' || is_word(run[k]),
    decreases run.len(),
{
    if run.len() > 0 {
        if is_space(run.last()) && is_trailing_run(run.drop_last(), tags) {
            let before = run.drop_last();
            lemma_run_holds(before, tags);
            assert forall|k: int| 0 <= k < run.len() implies is_space(#[trigger] run[k]) || run[k]
                == '#' || is_word(run[k]) by {
                if k < before.len() {
                    assert(before[k] == run[k]);
                }
            }
        } else {
            let i = choose|i: int|
                0 <= i < tags.len() && 0 < (#[trigger] tags[i]).len() <= run.len()
                    && tags[i].is_suffix_of(run) && is_trailing_run(
                    run.take(run.len() - tags[i].len()),
                    tags,
                );
            let tag = tags[i];
            let before = run.take(run.len() - tag.len());
            assert(is_hashtag(tag));
            lemma_run_holds(before, tags);
            assert forall|k: int| 0 <= k < run.len() implies is_space(#[trigger] run[k]) || run[k]
                == '#' || is_word(run[k]) by {
                if k < before.len() {
                    assert(before[k] == run[k]);
                } else {
                    let j = k - before.len();
                    assert(run.subrange(run.len() - tag.len(), run.len() as int)[j] == run[k]);
                    assert(tag[j] == run[k]);
                    if j >= 2 {
                        assert(is_word(tag[j]));
                    }
                }
            }
        }
    }
}

/// Two hashtags that end the same text are the same hashtag.
pub proof fn lemma_one_hashtag_ends(text: Seq<char>, a: Seq<char>, b: Seq<char>)
    requires
        is_hashtag(a),
        is_hashtag(b),
        a.is_suffix_of(text),
        b.is_suffix_of(text),
    ensures
        a == b,
{
    let n: int = text.len() as int;
    let ta = text.subrange(n - a.len(), n);
    let tb = text.subrange(n - b.len(), n);
    if a.len() < b.len() {
        let k: int = b.len() - a.len();
        assert(tb[k] == ta[0]);
        assert(is_word(b[k]) || is_letter(b[k]));
    } else if b.len() < a.len() {
        let k: int = a.len() - b.len();
        assert(ta[k] == tb[0]);
        assert(is_word(a[k]) || is_letter(a[k]));
    } else {
        assert(a =~= b);
    }
}

/// The text to display does not depend on the order in which white space
/// and hashtags are taken from the end of the text: whatever is left when a
/// trailing run has been taken away, and ends with neither white space nor
/// a hashtag, is what `strip_trailing` leaves.
pub proof fn lemma_strip_trailing_unique(text: Seq<char>, tags: Seq<Seq<char>>, label: Seq<char>)
    requires
        forall|i: int| 0 <= i < tags.len() ==> is_hashtag(#[trigger] tags[i]),
        label.is_prefix_of(text),
        is_trailing_run(text.skip(label.len() as int), tags),
        label.len() > 0 ==> !is_space(label.last()),
        ends_with_no_tag(label, tags),
    ensures
        label == strip_trailing(text, tags),
    decreases text.len(),
{
    lemma_trailing_tag(text, tags);
    let run = text.skip(label.len() as int);
    let n: int = text.len() as int;
    if run.len() == 0 {
        assert(label =~= text);
        if let Some(tag) = trailing_tag(text, tags) {
            let k = choose|k: int| 0 <= k < tags.len() && tags[k] == tag;
            assert(!(tags[k].len() > 0 && tags[k].is_suffix_of(label)));
        }
    } else {
        assert(run.last() == text.last());
        if is_space(run.last()) && is_trailing_run(run.drop_last(), tags) {
            let shorter = text.drop_last();
            assert(shorter.skip(label.len() as int) =~= run.drop_last());
            assert(label =~= shorter.subrange(0, label.len() as int));
            lemma_strip_trailing_unique(shorter, tags, label);
        } else {
            let i = choose|i: int|
                0 <= i < tags.len() && 0 < (#[trigger] tags[i]).len() <= run.len()
                    && tags[i].is_suffix_of(run) && is_trailing_run(
                    run.take(run.len() - tags[i].len()),
                    tags,
                );
            let tag = tags[i];
            assert(is_hashtag(tag));
            assert(tag =~= text.subrange(n - tag.len(), n)) by {
                assert(tag =~= run.subrange(run.len() - tag.len(), run.len() as int));
            }
            assert(tag.is_suffix_of(text));
            assert(text.last() == tag.last());
            assert(is_word(tag.last()) || is_letter(tag.last()));
            assert(!is_space(text.last()));
            assert(trailing_tag(text, tags) is Some);
            let first = trailing_tag(text, tags)->0;
            let k = choose|k: int| 0 <= k < tags.len() && tags[k] == first;
            assert(is_hashtag(tags[k]));
            lemma_one_hashtag_ends(text, tag, first);
            let shorter = text.take(n - tag.len());
            assert(shorter.skip(label.len() as int) =~= run.take(run.len() - tag.len()));
            assert(label =~= shorter.subrange(0, label.len() as int));
            lemma_strip_trailing_unique(shorter, tags, label);
        }
    }
}

/// The text to display is the only clean text that begins the input
/// without its leading white space and is followed there by a trailing run.
pub proof fn lemma_cleaned_unique(input: Seq<char>, tags: Seq<Seq<char>>, label: Seq<char>)
    requires
        forall|i: int| 0 <= i < tags.len() ==> is_hashtag(#[trigger] tags[i]),
        label.is_prefix_of(trim_start(input)),
        is_trailing_run(trim_start(input).skip(label.len() as int), tags),
        is_clean(label, tags),
    ensures
        label == cleaned(input, tags),
{
    lemma_strip_trailing_unique(trim_start(input), tags, label);
}

proof fn lemma_strip_trailing_without_tags(text: Seq<char>)
    ensures
        strip_trailing(text, Seq::empty()) == trim_end(text),
    decreases text.len(),
{
    if text.len() > 0 && is_space(text.last()) {
        lemma_strip_trailing_without_tags(text.drop_last());
    }
}

/// Without tags, cleaning is trimming.
pub proof fn lemma_cleaned_without_tags(input: Seq<char>)
    ensures
        cleaned(input, Seq::empty()) == trim(input),
{
    lemma_strip_trailing_without_tags(trim_start(input));
}

/// A clean label is its own text to display: cleaning it takes nothing
/// away.
pub proof fn lemma_clean_stays(label: Seq<char>, tags: Seq<Seq<char>>)
    requires
        is_clean(label, tags),
    ensures
        cleaned(label, tags) == label,
{
    lemma_trailing_tag(label, tags);
    if let Some(tag) = trailing_tag(label, tags) {
        let k = choose|k: int| 0 <= k < tags.len() && tags[k] == tag;
        assert(!(tags[k].len() > 0 && tags[k].is_suffix_of(label)));
    }
}

/// Cleaning is idempotent: the text to display, cleaned once more with the
/// same tags, is the text to display.
pub proof fn lemma_cleaned_idempotent(input: Seq<char>, tags: Seq<Seq<char>>)
    ensures
        cleaned(cleaned(input, tags), tags) == cleaned(input, tags),
{
    lemma_cleaned_is_clean(input, tags);
    lemma_clean_stays(cleaned(input, tags), tags);
}

/// A text to display stays as it is when it is cleaned again with tags that
/// were all among the tags it was cleaned with.
pub proof fn lemma_clean_again(
    input: Seq<char>,
    tags: Seq<Seq<char>>,
    tags_again: Seq<Seq<char>>,
)
    requires
        forall|tag: Seq<char>| tags_again.contains(tag) ==> tags.contains(tag),
    ensures
        cleaned(cleaned(input, tags), tags_again) == cleaned(input, tags),
{
    let label = cleaned(input, tags);
    lemma_cleaned_is_clean(input, tags);
    assert forall|i: int| 0 <= i < tags_again.len() implies !((#[trigger] tags_again[i]).len() > 0
        && tags_again[i].is_suffix_of(label)) by {
        assert(tags_again.contains(tags_again[i]));
        let k = choose|k: int| 0 <= k < tags.len() && tags[k] == tags_again[i];
        assert(!(tags[k].len() > 0 && tags[k].is_suffix_of(label)));
    }
    lemma_clean_stays(label, tags_again);
}

/// The characters of each tag.
fn keys_of(tags: &Vec<HashTag>) -> (keys: Vec<Vec<char>>)
    ensures
        are_chars_of(keys@, tags.deep_view()),
{
    let mut keys: Vec<Vec<char>> = Vec::new();
    let mut i: usize = 0;
    while i < tags.len()
        invariant
            i <= tags@.len(),
            keys@.len() == i,
            forall|k: int| 0 <= k < i ==> (#[trigger] keys@[k])@ == tags@[k]@,
        decreases tags@.len() - i,
    {
        keys.push(chars_of(tags[i].as_str()));
        i += 1;
    }
    keys
}

/// The length of the first tag that ends the characters of `chars` from
/// `start` up to `end`.
fn trailing_tag_length(
    chars: &Vec<char>,
    start: usize,
    end: usize,
    keys: &Vec<Vec<char>>,
    Ghost(tags): Ghost<Seq<Seq<char>>>,
) -> (out: Option<usize>)
    requires
        start <= end <= chars@.len(),
        are_chars_of(keys@, tags),
    ensures
        match trailing_tag(chars@.subrange(start as int, end as int), tags) {
            Some(tag) => out == Some(tag.len() as usize) && 0 < tag.len() <= end - start,
            None => out is None,
        },
{
    let ghost text = chars@.subrange(start as int, end as int);
    let mut k: usize = 0;
    assert(tags.skip(0) =~= tags);
    while k < keys.len()
        invariant
            start <= end <= chars@.len(),
            text == chars@.subrange(start as int, end as int),
            are_chars_of(keys@, tags),
            k <= keys@.len(),
            trailing_tag(text, tags) == trailing_tag(text, tags.skip(k as int)),
        decreases keys@.len() - k,
    {
        assert(tags.skip(k as int)[0] == keys@[k as int]@);
        assert(tags.skip(k as int).drop_first() =~= tags.skip(k + 1));
        if keys[k].len() > 0 && ends_with_at(chars, start, end, &keys[k]) {
            return Some(keys[k].len());
        }
        k += 1;
    }
    None
}

/// Where the text to display ends: the characters of `chars` from `start`
/// up to the result are what is left when the trailing run is taken away.
fn label_end(
    chars: &Vec<char>,
    start: usize,
    keys: &Vec<Vec<char>>,
    Ghost(tags): Ghost<Seq<Seq<char>>>,
) -> (end: usize)
    requires
        start <= chars@.len(),
        are_chars_of(keys@, tags),
    ensures
        start <= end <= chars@.len(),
        chars@.subrange(start as int, end as int) == strip_trailing(
            chars@.skip(start as int),
            tags,
        ),
{
    let mut end: usize = chars.len();
    let mut done = false;
    assert(chars@.subrange(start as int, end as int) =~= chars@.skip(start as int));
    while !done
        invariant
            start <= end <= chars@.len(),
            are_chars_of(keys@, tags),
            strip_trailing(chars@.subrange(start as int, end as int), tags) == strip_trailing(
                chars@.skip(start as int),
                tags,
            ),
            done ==> strip_trailing(chars@.subrange(start as int, end as int), tags)
                == chars@.subrange(start as int, end as int),
        decreases
                end - start + if done {
                    0int
                } else {
                    1int
                },
    {
        let ghost text = chars@.subrange(start as int, end as int);
        if end > start && is_space_char(chars[end - 1]) {
            assert(text.drop_last() =~= chars@.subrange(start as int, end - 1));
            end -= 1;
        } else {
            match trailing_tag_length(chars, start, end, keys, Ghost(tags)) {
                Some(n) => {
                    assert(text.take(text.len() - n) =~= chars@.subrange(start as int, end - n));
                    end -= n;
                },
                None => {
                    done = true;
                },
            }
        }
    }
    end
}

/// The text to display for `input`, given the hashtags found in it:
/// `input` without the white space at its start and without its trailing
/// run, the white space and hashtags at its end. A hashtag elsewhere in the
/// text stays.
pub fn clean_label(input: &str, tags: &Vec<HashTag>) -> (label: String)
    ensures
        label@ == cleaned(input@, tags.deep_view()),
{
    let chars = chars_of(input);
    let keys = keys_of(tags);
    let start: usize = leading_spaces(&chars);
    let end: usize = label_end(&chars, start, &keys, Ghost(tags.deep_view()));
    input.substring_char(start, end).to_owned()
}

} // verus!
