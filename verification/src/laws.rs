//! What holds of every reading of a label.
//!
//! Some of these laws hold of whatever the searches return. The others say
//! what follows where the searches find the hashtags and the variables that
//! the grammar of labels describes; they ask for that, since nothing here
//! proves it of a search.

use crate::clean::{
    cleaned, is_clean, lemma_clean_again, lemma_clean_stays, lemma_cleaned_is_clean,
    lemma_cleaned_takes_run, lemma_cleaned_without_tags, lemma_run_begins, lemma_run_holds,
};
use crate::graph::VariableView;
use crate::hash::is_hashtag;
use crate::labels::{parsed, NodeInfoView};
use crate::pattern::{regex_captures, Found, HASHTAG_PATTERN, VARIABLE_PATTERN};
use crate::tags::{
    finds_hashtags, is_found_tag, is_tag_list, lemma_split_tags, lemma_tag_list_exists,
    occurs_as_tag, tag_at, tag_list, tag_starts,
};
use crate::text::{
    is_space, is_trimmed, is_word, lemma_trim_start, lemma_word_end, trim, trim_start,
    word_end,
};
use crate::variables::{
    distinct, finds_variables, lemma_distinct, lemma_variables_in_well_formed,
    occurs_as_variable, variable_at, variable_starts, variables_in,
};
use vstd::prelude::*;

verus! {

/// What holds of the reading of every label: the reading is well formed,
/// the text to display has no white space at its ends, and every hashtag in
/// it was found in the label.
pub proof fn lemma_parsed(input: Seq<char>)
    ensures
        parsed(input).is_well_formed(),
        is_trimmed(parsed(input).label),
        forall|i: int|
            0 <= i < parsed(input).tags.len() ==> is_found_tag(
                regex_captures(HASHTAG_PATTERN@, input),
                #[trigger] parsed(input).tags[i],
            ),
        parsed(input).subgraph matches Some(tag) ==> is_found_tag(
            regex_captures(HASHTAG_PATTERN@, input),
            tag,
        ),
{
    let found = regex_captures(HASHTAG_PATTERN@, input);
    let all = tag_list(found);
    let info = parsed(input);
    let matches = regex_captures(VARIABLE_PATTERN@, info.label);
    lemma_tag_list_exists(found);
    lemma_cleaned_is_clean(input, all);
    lemma_split_tags(all);
    assert forall|i: int| 0 <= i < all.len() implies is_found_tag(found, #[trigger] all[i]) by {
        assert(all.contains(all[i]));
    }
    assert forall|i: int| 0 <= i < info.tags.len() implies is_found_tag(
        found,
        #[trigger] info.tags[i],
    ) && !(info.tags[i].len() > 0 && info.tags[i].is_suffix_of(info.label)) by {
        let tag = info.tags[i];
        assert(all.contains(tag));
        let k = choose|k: int| 0 <= k < all.len() && all[k] == tag;
        assert(is_found_tag(found, all[k]));
        assert(!(all[k].len() > 0 && all[k].is_suffix_of(info.label)));
    }
    if let Some(tag) = info.subgraph {
        assert(all.contains(tag));
        let k = choose|k: int| 0 <= k < all.len() && all[k] == tag;
        assert(is_found_tag(found, all[k]));
        assert(!(all[k].len() > 0 && all[k].is_suffix_of(info.label)));
    }
    lemma_distinct(variables_in(matches));
    lemma_variables_in_well_formed(matches);
    assert forall|i: int| 0 <= i < info.variables.len() implies (
    #[trigger] info.variables[i]).is_well_formed() by {
        let variable = info.variables[i];
        assert(info.variables.contains(variable));
        assert(variables_in(matches).contains(variable));
        let k = choose|k: int|
            0 <= k < variables_in(matches).len() && variables_in(matches)[k] == variable;
        assert(variables_in(matches)[k].is_well_formed());
    }
}

/// A label has one reading: two readings of the same label hold the same
/// text to display, the same tags, the same subgraph and the same
/// variables.
pub proof fn lemma_parse_deterministic(label: Seq<char>, first: NodeInfoView, second: NodeInfoView)
    requires
        first == parsed(label),
        second == parsed(label),
    ensures
        first == second,
{
}

/// Where no hashtag is found in a label, no tag is listed and the text to
/// display is the label without the white space at its ends.
pub proof fn lemma_nothing_found(input: Seq<char>, found: Found)
    requires
        forall|tag: Seq<char>| !is_found_tag(found, tag),
    ensures
        tag_list(found) == Seq::<Seq<char>>::empty(),
        cleaned(input, tag_list(found)) == trim(input),
{
    let tags = tag_list(found);
    lemma_tag_list_exists(found);
    if tags.len() > 0 {
        assert(tags.contains(tags[0]));
    }
    assert(tags =~= Seq::<Seq<char>>::empty());
    lemma_cleaned_without_tags(input);
}

/// Extracting the hashtags of a label that is clean already leaves the label
/// as it is: where `tags` lists the hashtags found in `label`, and `label`
/// has no white space at its ends and none of them at its end, the text to
/// display is `label`. Where no hashtag is found in it, `tags` is empty.
pub proof fn lemma_extract_from_clean(
    label: Seq<char>,
    found: Found,
    tags: Seq<Seq<char>>,
)
    requires
        is_tag_list(tags, found),
        is_clean(label, tags),
    ensures
        cleaned(label, tags) == label,
        (forall|tag: Seq<char>| !is_found_tag(found, tag)) ==> tags == Seq::<Seq<char>>::empty(),
{
    lemma_clean_stays(label, tags);
    if forall|tag: Seq<char>| !is_found_tag(found, tag) {
        if tags.len() > 0 {
            assert(tags.contains(tags[0]));
        }
        assert(tags =~= Seq::<Seq<char>>::empty());
    }
}

/// Extraction is idempotent where the search finds the hashtags of the text
/// it is given: extracting again, from the text to display, finds no
/// hashtag that was not found before and leaves the text to display as it
/// is.
pub proof fn lemma_extract_twice(input: Seq<char>, found: Found, found_again: Found)
    requires
        finds_hashtags(found, input),
        finds_hashtags(found_again, cleaned(input, tag_list(found))),
    ensures
        forall|tag: Seq<char>|
            tag_list(found_again).contains(tag) ==> #[trigger] tag_list(found).contains(tag),
        cleaned(cleaned(input, tag_list(found)), tag_list(found_again)) == cleaned(
            input,
            tag_list(found),
        ),
{
    let tags = tag_list(found);
    let tags_again = tag_list(found_again);
    lemma_tag_list_exists(found);
    lemma_tag_list_exists(found_again);
    assert forall|i: int| 0 <= i < tags.len() implies is_hashtag(#[trigger] tags[i]) by {
        assert(tags.contains(tags[i]));
    }
    assert forall|tag: Seq<char>| tags_again.contains(tag) implies #[trigger] tags.contains(
        tag,
    ) by {
        assert(is_found_tag(found_again, tag));
        lemma_tags_of_cleaned(input, tags, tag);
        assert(is_found_tag(found, tag));
    }
    lemma_clean_again(input, tags, tags_again);
}

/// Every hashtag of the text to display is a hashtag of the input: taking
/// the trailing run away cuts no hashtag short and makes no new one.
pub proof fn lemma_tags_of_cleaned(input: Seq<char>, tags: Seq<Seq<char>>, tag: Seq<char>)
    requires
        forall|i: int| 0 <= i < tags.len() ==> is_hashtag(#[trigger] tags[i]),
        occurs_as_tag(cleaned(input, tags), tag),
    ensures
        occurs_as_tag(input, tag),
{
    let label = cleaned(input, tags);
    let lead: int = input.len() - trim_start(input).len();
    lemma_place_of_cleaned(input, tags);
    let at = choose|at: int| tag_starts(label, at) && tag == #[trigger] tag_at(label, at);
    assert(label[at] == input[lead + at]);
    assert(label[at + 1] == input[lead + at + 1]);
    assert(tag_starts(input, lead + at));
    lemma_same_word_end(input, tags, at + 2);
    lemma_word_end(label, at + 2);
    assert(tag_at(input, lead + at) =~= tag_at(label, at));
}

/// The variables of the text to display are the variables of the input:
/// what is taken away holds no variable and cuts none short.
pub proof fn lemma_variables_of_cleaned(
    input: Seq<char>,
    tags: Seq<Seq<char>>,
    variable: VariableView,
)
    requires
        forall|i: int| 0 <= i < tags.len() ==> is_hashtag(#[trigger] tags[i]),
    ensures
        occurs_as_variable(cleaned(input, tags), variable) <==> occurs_as_variable(
            input,
            variable,
        ),
{
    if occurs_as_variable(cleaned(input, tags), variable) {
        lemma_variable_of_cleaned(input, tags, variable);
    }
    if occurs_as_variable(input, variable) {
        lemma_variable_stays(input, tags, variable);
    }
}

/// Where the searches find the hashtags and the variables of the texts they
/// are given, a reading holds the variables of the label as it was written,
/// each of them once: it makes no difference that the variables are looked
/// for in the text to display.
pub proof fn lemma_variables_of_label(
    input: Seq<char>,
    found: Found,
    found_variables: Found,
    variable: VariableView,
)
    requires
        finds_hashtags(found, input),
        finds_variables(found_variables, cleaned(input, tag_list(found))),
    ensures
        distinct(variables_in(found_variables)).contains(variable) <==> occurs_as_variable(
            input,
            variable,
        ),
{
    let tags = tag_list(found);
    lemma_tag_list_exists(found);
    assert forall|i: int| 0 <= i < tags.len() implies is_hashtag(#[trigger] tags[i]) by {
        assert(tags.contains(tags[i]));
    }
    lemma_variables_of_cleaned(input, tags, variable);
    lemma_distinct(variables_in(found_variables));
    assert(distinct(variables_in(found_variables)).contains(variable) <==> variables_in(
        found_variables,
    ).contains(variable));
    assert(variables_in(found_variables).contains(variable) <==> occurs_as_variable(
        cleaned(input, tags),
        variable,
    ));
}

/// Where the text to display lies in the input: behind the leading white
/// space, and in front of a trailing run that begins, if it is not empty,
/// with white space or `#`, and holds no `$` and no `=`.
proof fn lemma_place_of_cleaned(input: Seq<char>, tags: Seq<Seq<char>>)
    requires
        forall|i: int| 0 <= i < tags.len() ==> is_hashtag(#[trigger] tags[i]),
    ensures
        trim_start(input).len() <= input.len(),
        cleaned(input, tags).len() <= trim_start(input).len(),
        forall|j: int|
            0 <= j < input.len() - trim_start(input).len() ==> is_space(#[trigger] input[j]),
        forall|i: int|
            0 <= i < cleaned(input, tags).len() ==> #[trigger] cleaned(input, tags)[i]
                == input[input.len() - trim_start(input).len() + i],
        forall|j: int|
            input.len() - trim_start(input).len() + cleaned(input, tags).len() <= j < input.len()
                ==> is_space(#[trigger] input[j]) || input[j] == '#' || is_word(input[j]),
        input.len() - trim_start(input).len() + cleaned(input, tags).len() < input.len() ==> {
            let end = input.len() - trim_start(input).len() + cleaned(input, tags).len();
            is_space(input[end]) || input[end] == '#'
        },
{
    let text = trim_start(input);
    let label = cleaned(input, tags);
    let run = text.skip(label.len() as int);
    let lead: int = input.len() - text.len();
    lemma_trim_start(input);
    lemma_cleaned_takes_run(input, tags);
    lemma_run_holds(run, tags);
    assert(text =~= input.subrange(lead, input.len() as int));
    assert forall|i: int| 0 <= i < label.len() implies #[trigger] label[i] == input[lead + i] by {
        assert(text[i] == (label + run)[i]);
    }
    assert forall|j: int| lead + label.len() <= j < input.len() implies is_space(
        #[trigger] input[j],
    ) || input[j] == '#' || is_word(input[j]) by {
        assert(input[j] == text[j - lead]);
        assert(text[j - lead] == run[j - lead - label.len()]);
    }
    if run.len() > 0 {
        lemma_run_begins(run, tags);
        assert(text[label.len() as int] == run[0]);
        assert(input[lead + label.len()] == text[label.len() as int]);
    }
}

/// A run of letters, digits, `_` and `-` in the text to display ends where
/// it ends in the input.
proof fn lemma_same_word_end(input: Seq<char>, tags: Seq<Seq<char>>, from: int)
    requires
        forall|i: int| 0 <= i < tags.len() ==> is_hashtag(#[trigger] tags[i]),
        0 <= from <= cleaned(input, tags).len(),
    ensures
        word_end(input, input.len() - trim_start(input).len() + from) == input.len() - trim_start(
            input,
        ).len() + word_end(cleaned(input, tags), from),
    decreases cleaned(input, tags).len() - from,
{
    let text = trim_start(input);
    let label = cleaned(input, tags);
    let run = text.skip(label.len() as int);
    let lead: int = input.len() - text.len();
    lemma_trim_start(input);
    lemma_cleaned_takes_run(input, tags);
    assert(text =~= input.subrange(lead, input.len() as int));
    if from < label.len() {
        assert(text[from] == (label + run)[from]);
        assert(label[from] == input[lead + from]);
        if is_word(label[from]) {
            lemma_same_word_end(input, tags, from + 1);
        }
    } else if run.len() > 0 {
        lemma_run_begins(run, tags);
        assert(text[from] == run[0]);
        assert(input[lead + from] == run[0]);
    }
}

/// A variable of the text to display is a variable of the input.
proof fn lemma_variable_of_cleaned(
    input: Seq<char>,
    tags: Seq<Seq<char>>,
    variable: VariableView,
)
    requires
        forall|i: int| 0 <= i < tags.len() ==> is_hashtag(#[trigger] tags[i]),
        occurs_as_variable(cleaned(input, tags), variable),
    ensures
        occurs_as_variable(input, variable),
{
    let label = cleaned(input, tags);
    let lead: int = input.len() - trim_start(input).len();
    lemma_place_of_cleaned(input, tags);
    let at = choose|at: int|
        variable_starts(label, at) && variable == #[trigger] variable_at(label, at);
    let name_end = word_end(label, at + 1);
    let value_end = word_end(label, name_end + 1);
    lemma_same_word_end(input, tags, at + 1);
    lemma_word_end(label, at + 1);
    lemma_same_word_end(input, tags, name_end + 1);
    lemma_word_end(label, name_end + 1);
    assert(label[at] == input[lead + at]);
    assert(label[at + 1] == input[lead + at + 1]);
    assert(label[name_end] == input[lead + name_end]);
    assert(word_end(input, lead + at + 1) == lead + name_end);
    assert(word_end(input, lead + name_end + 1) == lead + value_end);
    assert(variable_starts(input, lead + at));
    assert(input.subrange(lead + at + 1, lead + name_end) =~= label.subrange(at + 1, name_end));
    assert(input.subrange(lead + name_end + 1, lead + value_end) =~= label.subrange(
        name_end + 1,
        value_end,
    ));
    assert(variable_at(input, lead + at) == variable);
}

/// A variable of the input is a variable of the text to display.
proof fn lemma_variable_stays(input: Seq<char>, tags: Seq<Seq<char>>, variable: VariableView)
    requires
        forall|i: int| 0 <= i < tags.len() ==> is_hashtag(#[trigger] tags[i]),
        occurs_as_variable(input, variable),
    ensures
        occurs_as_variable(cleaned(input, tags), variable),
{
    let label = cleaned(input, tags);
    let lead: int = input.len() - trim_start(input).len();
    let end: int = lead + label.len();
    lemma_place_of_cleaned(input, tags);
    let place = choose|place: int|
        variable_starts(input, place) && variable == #[trigger] variable_at(input, place);
    let at = place - lead;
    assert(!is_space(input[place]) && input[place] != '#' && !is_word(input[place]));
    assert(lead <= place < end);
    assert(!is_space(input[place + 1]) && input[place + 1] != '#');
    assert(place + 1 < end);
    lemma_same_word_end(input, tags, at + 1);
    lemma_word_end(label, at + 1);
    let name_end = word_end(label, at + 1);
    assert(word_end(input, place + 1) == lead + name_end);
    assert(input[lead + name_end] == '=');
    assert(!is_space(input[lead + name_end]) && input[lead + name_end] != '#' && !is_word(
        input[lead + name_end],
    ));
    assert(name_end < label.len());
    lemma_same_word_end(input, tags, name_end + 1);
    lemma_word_end(label, name_end + 1);
    let value_end = word_end(label, name_end + 1);
    assert(word_end(input, lead + name_end + 1) == lead + value_end);
    assert(label[at] == input[lead + at]);
    assert(label[at + 1] == input[lead + at + 1]);
    assert(label[name_end] == input[lead + name_end]);
    assert(variable_starts(label, at));
    assert(input.subrange(place + 1, lead + name_end) =~= label.subrange(at + 1, name_end));
    assert(input.subrange(lead + name_end + 1, lead + value_end) =~= label.subrange(
        name_end + 1,
        value_end,
    ));
    assert(variable_at(label, at) == variable);
}

} // verus!
