//! The variables of a label: which of the matches of the variable pattern
//! stand for a variable, and the list they are put in.

use crate::graph::{
    inferred, is_identifier, is_identifier_text, Variable, VariableValue, VariableView,
};
use crate::pattern::{Found, Matches};
use crate::text::{chars_of, is_letter, is_word, is_word_char, word_end};
use vstd::prelude::*;

verus! {

/// The shape of the text of a variable's value in a label: one or more
/// letters, digits, `_` and `-`.
pub open spec fn is_value_text(t: Seq<char>) -> bool {
    &&& t.len() >= 1
    &&& forall|i: int| 0 <= i < t.len() ==> is_word(#[trigger] t[i])
}

/// The variable that one match of the variable pattern stands for: its
/// first group names the variable, its second group holds the text of the
/// value. A match stands for no variable where it lacks one of the two
/// groups, where the name is no identifier, and where the text of the value
/// is not a run of letters, digits, `_` and `-`.
pub open spec fn variable_in(capture: Seq<Option<Seq<char>>>) -> Option<VariableView> {
    if capture.len() >= 3 && capture[1] is Some && capture[2] is Some && is_identifier(
        capture[1]->0,
    ) && is_value_text(capture[2]->0) {
        Some(VariableView { name: capture[1]->0, value: inferred(capture[2]->0) })
    } else {
        None
    }
}

/// The variables that the matches in `found` stand for, one for each match
/// that stands for one, in the order of the matches.
pub open spec fn variables_in(found: Found) -> Seq<VariableView>
    decreases found.len(),
{
    if found.len() == 0 {
        Seq::empty()
    } else {
        let earlier = variables_in(found.drop_last());
        match variable_in(found.last()) {
            Some(variable) => earlier.push(variable),
            None => earlier,
        }
    }
}

/// `s` with each value kept where it first occurs and dropped where it
/// occurs again.
pub open spec fn distinct<A>(s: Seq<A>) -> Seq<A>
    decreases s.len(),
{
    if s.len() == 0 {
        s
    } else {
        let earlier = distinct(s.drop_last());
        if earlier.contains(s.last()) {
            earlier
        } else {
            earlier.push(s.last())
        }
    }
}

/// The first variable among the matches in `found`, if there is one.
pub open spec fn first_variable(found: Found) -> Option<VariableView> {
    if variables_in(found).len() > 0 {
        Some(variables_in(found)[0])
    } else {
        None
    }
}

/// A variable begins at place `at` of `text`: there is a `$` there, then a
/// name that begins with an ASCII letter, then `=`, then a value of one
/// character at least. Name and value go on for as long as letters, digits,
/// `_` and `-` do.
pub open spec fn variable_starts(text: Seq<char>, at: int) -> bool {
    let name_end = word_end(text, at + 1);
    &&& 0 <= at && at + 1 < text.len()
    &&& text[at] == '$'
    &&& is_letter(text[at + 1])
    &&& name_end < text.len()
    &&& text[name_end] == '='
    &&& word_end(text, name_end + 1) > name_end + 1
}

/// The variable that begins at place `at` of `text`.
pub open spec fn variable_at(text: Seq<char>, at: int) -> VariableView {
    let name_end = word_end(text, at + 1);
    VariableView {
        name: text.subrange(at + 1, name_end),
        value: inferred(text.subrange(name_end + 1, word_end(text, name_end + 1))),
    }
}

/// `variable` is a variable of `text`: it begins at some place of it.
pub open spec fn occurs_as_variable(text: Seq<char>, variable: VariableView) -> bool {
    exists|at: int| variable_starts(text, at) && variable == #[trigger] variable_at(text, at)
}

/// What the variable pattern is meant to find in `text`: the variables that
/// the matches stand for are the variables of `text`. Nothing in this
/// library proves it of a search; the laws that need it ask for it.
pub open spec fn finds_variables(found: Found, text: Seq<char>) -> bool {
    forall|variable: VariableView| #[trigger]
        variables_in(found).contains(variable) <==> occurs_as_variable(text, variable)
}

/// `distinct(s)` holds the values of `s` and no others, each of them once.
pub proof fn lemma_distinct<A>(s: Seq<A>)
    ensures
        distinct(s).no_duplicates(),
        forall|x: A| distinct(s).contains(x) <==> s.contains(x),
        distinct(s).len() <= s.len(),
    decreases s.len(),
{
    if s.len() > 0 {
        let earlier = distinct(s.drop_last());
        lemma_distinct(s.drop_last());
        assert forall|x: A| distinct(s).contains(x) <==> s.contains(x) by {
            if s.contains(x) {
                let i = choose|i: int| 0 <= i < s.len() && s[i] == x;
                if i < s.len() - 1 {
                    assert(s.drop_last()[i] == x);
                    assert(s.drop_last().contains(x));
                    let j = choose|j: int| 0 <= j < earlier.len() && earlier[j] == x;
                    assert(distinct(s)[j] == x);
                } else if !earlier.contains(x) {
                    assert(distinct(s).last() == x);
                } else {
                    let j = choose|j: int| 0 <= j < earlier.len() && earlier[j] == x;
                    assert(distinct(s)[j] == x);
                }
            }
            if distinct(s).contains(x) {
                let j = choose|j: int| 0 <= j < distinct(s).len() && distinct(s)[j] == x;
                if j < earlier.len() {
                    assert(earlier[j] == x);
                    assert(earlier.contains(x));
                    assert(s.drop_last().contains(x));
                    let i = choose|i: int| 0 <= i < s.drop_last().len() && s.drop_last()[i] == x;
                    assert(s[i] == x);
                } else {
                    assert(s[s.len() - 1] == x);
                }
            }
        }
    }
}

/// Of two variables that come one after the other, one is kept where they
/// are equal and both where they differ.
pub proof fn lemma_distinct_pair<A>(first: A, second: A)
    ensures
        distinct(seq![first, second]) == if first == second {
            seq![first]
        } else {
            seq![first, second]
        },
{
    let both = seq![first, second];
    let one = both.drop_last();
    assert(one =~= seq![first]);
    assert(one.drop_last() =~= Seq::<A>::empty());
    assert(distinct(one.drop_last()) =~= Seq::<A>::empty());
    assert(distinct(one) =~= seq![first]);
    if first == second {
        assert(distinct(one)[0] == second);
    } else {
        assert(distinct(both) =~= seq![first, second]);
    }
}

/// Every variable that a match stands for is well formed.
pub proof fn lemma_variables_in_well_formed(found: Found)
    ensures
        forall|i: int|
            0 <= i < variables_in(found).len() ==> (#[trigger] variables_in(
                found,
            )[i]).is_well_formed(),
    decreases found.len(),
{
    if found.len() > 0 {
        let earlier = variables_in(found.drop_last());
        lemma_variables_in_well_formed(found.drop_last());
        assert forall|i: int| 0 <= i < variables_in(found).len() implies (#[trigger] variables_in(
            found,
        )[i]).is_well_formed() by {
            if i < earlier.len() {
                assert(earlier[i].is_well_formed());
            } else {
                let variable = variable_in(found.last())->0;
                assert(variables_in(found)[i] == variable);
                assert(inferred(found.last()[2]->0).is_well_formed());
            }
        }
    }
}

/// The variables of the first `k` matches begin the variables of them all.
pub proof fn lemma_variables_in_prefix(found: Found, k: int)
    requires
        0 <= k <= found.len(),
    ensures
        variables_in(found.take(k)).is_prefix_of(variables_in(found)),
    decreases found.len() - k,
{
    if k == found.len() {
        assert(found.take(k) =~= found);
    } else {
        lemma_variables_in_prefix(found, k + 1);
        assert(found.take(k + 1).drop_last() =~= found.take(k));
    }
}

/// Whether `chars` has the shape of the text of a variable's value.
pub fn is_value_chars(chars: &Vec<char>) -> (out: bool)
    ensures
        out == is_value_text(chars@),
{
    if chars.len() < 1 {
        return false;
    }
    let mut i: usize = 0;
    while i < chars.len()
        invariant
            i <= chars@.len(),
            forall|k: int| 0 <= k < i ==> is_word(#[trigger] chars@[k]),
        decreases chars@.len() - i,
    {
        if !is_word_char(chars[i]) {
            return false;
        }
        i += 1;
    }
    true
}

/// The variable that one match stands for.
pub fn variable_of(capture: &Vec<Option<String>>) -> (out: Option<Variable>)
    ensures
        out.deep_view() == variable_in(capture.deep_view()),
        out matches Some(variable) ==> variable.is_well_formed(),
{
    if capture.len() < 3 {
        return None;
    }
    assert(capture.deep_view()[1] == capture@[1].deep_view());
    assert(capture.deep_view()[2] == capture@[2].deep_view());
    match (&capture[1], &capture[2]) {
        (Some(name), Some(text)) => {
            if is_identifier_text(&chars_of(name.as_str())) && is_value_chars(
                &chars_of(text.as_str()),
            ) {
                Some(Variable { name: name.clone(), value: VariableValue::infer(text.as_str()) })
            } else {
                None
            }
        },
        _ => None,
    }
}

/// Whether `variable` is among `variables`.
fn holds(variables: &Vec<Variable>, variable: &Variable) -> (out: bool)
    ensures
        out == variables.deep_view().contains(variable@),
{
    let mut i: usize = 0;
    while i < variables.len()
        invariant
            i <= variables@.len(),
            forall|k: int| 0 <= k < i ==> variables@[k]@ != variable@,
        decreases variables@.len() - i,
    {
        if variables[i] == *variable {
            assert(variables.deep_view()[i as int] == variable@);
            return true;
        }
        i += 1;
    }
    assert forall|k: int| 0 <= k < variables.deep_view().len() implies variables.deep_view()[k]
        != variable@ by {
        assert(variables.deep_view()[k] == variables@[k]@);
    }
    false
}

/// The variables that the matches in `found` stand for, each of them once,
/// in the order in which they first occur.
pub fn variables_of(found: &Matches) -> (out: Vec<Variable>)
    ensures
        out.deep_view() == distinct(variables_in(found.deep_view())),
        out.deep_view().no_duplicates(),
        forall|i: int| 0 <= i < out@.len() ==> (#[trigger] out@[i]).is_well_formed(),
{
    let mut out: Vec<Variable> = Vec::new();
    let ghost all = found.deep_view();
    assert(all.take(0) =~= Seq::empty());
    assert(out.deep_view() =~= Seq::empty());
    let mut i: usize = 0;
    while i < found.len()
        invariant
            i <= found@.len(),
            all == found.deep_view(),
            out.deep_view() == distinct(variables_in(all.take(i as int))),
            forall|k: int| 0 <= k < out@.len() ==> (#[trigger] out@[k]).is_well_formed(),
        decreases found@.len() - i,
    {
        let ghost before = all.take(i as int);
        let ghost after = all.take(i + 1);
        assert(after.drop_last() =~= before);
        assert(after.last() == found@[i as int].deep_view());
        let ghost seen = out.deep_view();
        match variable_of(&found[i]) {
            Some(variable) => {
                assert(variables_in(after) == variables_in(before).push(variable@));
                assert(variables_in(after).drop_last() =~= variables_in(before));
                if !holds(&out, &variable) {
                    out.push(variable);
                    assert(out.deep_view() =~= seen.push(variable@));
                }
            },
            None => {},
        }
        i += 1;
    }
    assert(all.take(found@.len() as int) =~= all);
    proof {
        lemma_distinct(variables_in(all));
    }
    out
}

/// The first variable among the matches in `found`.
pub fn first_variable_of(found: &Matches) -> (out: Option<Variable>)
    ensures
        out.deep_view() == first_variable(found.deep_view()),
        out matches Some(variable) ==> variable.is_well_formed(),
{
    let ghost all = found.deep_view();
    assert(all.take(0) =~= Seq::empty());
    let mut i: usize = 0;
    while i < found.len()
        invariant
            i <= found@.len(),
            all == found.deep_view(),
            variables_in(all.take(i as int)).len() == 0,
        decreases found@.len() - i,
    {
        let ghost after = all.take(i + 1);
        assert(after.drop_last() =~= all.take(i as int));
        assert(after.last() == found@[i as int].deep_view());
        match variable_of(&found[i]) {
            Some(variable) => {
                proof {
                    lemma_variables_in_prefix(all, i + 1);
                    let first = variables_in(after);
                    assert(first =~= seq![variable@]);
                    assert(variables_in(all).subrange(0, 1)[0] == variables_in(all)[0]);
                }
                return Some(variable);
            },
            None => {},
        }
        i += 1;
    }
    assert(all.take(found@.len() as int) =~= all);
    None
}

} // verus!
