//! Variables and their values: the types, and the value that is inferred
//! from the text of a `$name=value` token.

use crate::literal::{
    decimal_value, is_exponent, is_mantissa, is_number_literal, is_number_text,
    is_special_number, parse_decimal, to_lower, unsigned,
};
use crate::pattern::{captures, compiles, regex_captures, regex_compiles, VARIABLE_PATTERN};
use crate::text::{
    all_digits, chars_of, is_digit, is_letter, is_letter_char, is_word, is_word_char,
    same_chars,
};
use crate::variables::{first_variable, first_variable_of};
use vstd::prelude::*;
use vstd::std_specs::cmp::PartialEqSpecImpl;

verus! {

/// A span of time: a whole number of days, minutes, months or years.
#[derive(Debug, Clone, Copy, PartialEq, Eq, Hash, Structural)]
pub enum Time {
    Day(i64),
    Minute(i64),
    Month(i64),
    Year(i64),
}

/// The value of a variable.
///
/// A number is held as the literal that denotes it, exactly as it was
/// written: the library recognises the literal and leaves its conversion to
/// a binary floating-point number to the caller. Two numbers are the same
/// value when their literals are the same text.
#[derive(Debug, Eq, Hash)]
pub enum VariableValue {
    String(String),
    Number(String),
    Boolean(bool),
    Time(Time),
}

/// The mathematical value of a [`VariableValue`].
pub enum ValueView {
    String(Seq<char>),
    Number(Seq<char>),
    Boolean(bool),
    Time(Time),
}

impl ValueView {
    /// A number is written as a floating-point literal.
    pub open spec fn is_well_formed(self) -> bool {
        self matches ValueView::Number(literal) ==> is_number_literal(literal)
    }
}

impl View for VariableValue {
    type V = ValueView;

    open spec fn view(&self) -> ValueView {
        match self {
            VariableValue::String(text) => ValueView::String(text@),
            VariableValue::Number(literal) => ValueView::Number(literal@),
            VariableValue::Boolean(value) => ValueView::Boolean(*value),
            VariableValue::Time(time) => ValueView::Time(*time),
        }
    }
}

impl DeepView for VariableValue {
    type V = ValueView;

    open spec fn deep_view(&self) -> ValueView {
        self@
    }
}

impl PartialEq for VariableValue {
    fn eq(&self, other: &Self) -> (out: bool) {
        match (self, other) {
            (VariableValue::String(a), VariableValue::String(b)) => *a == *b,
            (VariableValue::Number(a), VariableValue::Number(b)) => *a == *b,
            (VariableValue::Boolean(a), VariableValue::Boolean(b)) => *a == *b,
            (VariableValue::Time(a), VariableValue::Time(b)) => *a == *b,
            _ => false,
        }
    }
}

impl PartialEqSpecImpl for VariableValue {
    open spec fn obeys_eq_spec() -> bool {
        true
    }

    open spec fn eq_spec(&self, other: &Self) -> bool {
        self@ == other@
    }
}

impl Clone for VariableValue {
    fn clone(&self) -> (out: Self)
        ensures
            out@ == self@,
    {
        match self {
            VariableValue::String(text) => VariableValue::String(text.clone()),
            VariableValue::Number(literal) => VariableValue::Number(literal.clone()),
            VariableValue::Boolean(value) => VariableValue::Boolean(*value),
            VariableValue::Time(time) => VariableValue::Time(*time),
        }
    }
}

/// A variable: a name and a typed value. Two variables are equal when both
/// their names and their values are, so a label may give one name several
/// values.
#[derive(Debug, Eq, Hash)]
pub struct Variable {
    pub name: String,
    pub value: VariableValue,
}

/// The mathematical value of a [`Variable`].
pub struct VariableView {
    pub name: Seq<char>,
    pub value: ValueView,
}

/// The shape of a variable's name: one ASCII letter, then letters, digits,
/// `_` and `-`.
pub open spec fn is_identifier(t: Seq<char>) -> bool {
    &&& t.len() >= 1
    &&& is_letter(t[0])
    &&& forall|i: int| 1 <= i < t.len() ==> is_word(#[trigger] t[i])
}

impl VariableView {
    /// The name is an identifier, and the value is well formed.
    pub open spec fn is_well_formed(self) -> bool {
        is_identifier(self.name) && self.value.is_well_formed()
    }
}

impl View for Variable {
    type V = VariableView;

    open spec fn view(&self) -> VariableView {
        VariableView { name: self.name@, value: self.value@ }
    }
}

impl DeepView for Variable {
    type V = VariableView;

    open spec fn deep_view(&self) -> VariableView {
        self@
    }
}

impl PartialEq for Variable {
    fn eq(&self, other: &Self) -> (out: bool) {
        self.name == other.name && self.value == other.value
    }
}

impl PartialEqSpecImpl for Variable {
    open spec fn obeys_eq_spec() -> bool {
        true
    }

    open spec fn eq_spec(&self, other: &Self) -> bool {
        self@ == other@
    }
}

impl Clone for Variable {
    fn clone(&self) -> (out: Self)
        ensures
            out@ == self@,
    {
        Variable { name: self.name.clone(), value: self.value.clone() }
    }
}

/// The text `true`.
pub open spec fn true_text() -> Seq<char> {
    seq!['t', 'r', 'u', 'e']
}

/// The text `false`.
pub open spec fn false_text() -> Seq<char> {
    seq!['f', 'a', 'l', 's', 'e']
}

/// The time span that `t` denotes, if it denotes one: a run of decimal
/// digits followed by one of the units `d` (days), `m` (minutes), `M`
/// (months) and `y` (years). The number must fit an `i64`.
pub open spec fn time_literal(t: Seq<char>) -> Option<Time> {
    if t.len() >= 2 && all_digits(t.drop_last()) && decimal_value(t.drop_last()) <= i64::MAX {
        let n = decimal_value(t.drop_last()) as i64;
        if t.last() == 'd' {
            Some(Time::Day(n))
        } else if t.last() == 'm' {
            Some(Time::Minute(n))
        } else if t.last() == 'M' {
            Some(Time::Month(n))
        } else if t.last() == 'y' {
            Some(Time::Year(n))
        } else {
            None
        }
    } else {
        None
    }
}

/// The value that the text `t` is read as. The first rule that applies
/// decides: `true` and `false` are booleans; digits with a unit are a time
/// span; a floating-point literal is a number; everything else is a string.
pub open spec fn inferred(t: Seq<char>) -> ValueView {
    if t == true_text() {
        ValueView::Boolean(true)
    } else if t == false_text() {
        ValueView::Boolean(false)
    } else if let Some(time) = time_literal(t) {
        ValueView::Time(time)
    } else if is_number_literal(t) {
        ValueView::Number(t)
    } else {
        ValueView::String(t)
    }
}

/// No text is read in two ways, so the order in which the rules of
/// [`inferred`] are tried decides nothing: `true` and `false` are neither
/// time spans nor numbers, and a time span is no number.
pub proof fn lemma_readings_exclude(t: Seq<char>)
    ensures
        t == true_text() || t == false_text() ==> time_literal(t) is None && !is_number_literal(t),
        time_literal(t) is Some ==> !is_number_literal(t),
{
    let u = unsigned(t);
    if t == true_text() || t == false_text() {
        assert(u == t);
        assert(to_lower(u[0]) == u[0]);
        assert(!is_special_number(u));
        assert forall|k: int| 0 <= k <= u.len() && #[trigger] is_mantissa(
            u.take(k),
        ) implies false by {
            let m = u.take(k);
            let d = choose|d: int| 0 <= d < m.len() && is_digit(#[trigger] m[d]);
            assert(m[d] == u[d]);
        }
    } else if time_literal(t) is Some {
        let digits = t.drop_last();
        assert(is_digit(digits[0]));
        assert(digits[0] == t[0]);
        assert(u == t);
        assert(to_lower(u[0]) == u[0]);
        assert(!is_special_number(u));
        assert forall|k: int|
            0 <= k <= u.len() && #[trigger] is_mantissa(u.take(k)) && (k == u.len()
                || is_exponent(u.skip(k))) implies false by {
            if k == u.len() {
                assert(u.take(k)[k - 1] == u.last());
            } else {
                assert(u.skip(k)[0] == u[k]);
                if k < u.len() - 1 {
                    assert(is_digit(digits[k]));
                }
            }
        }
    }
}

/// Reads `chars` as a time span.
pub fn parse_time(chars: &Vec<char>) -> (out: Option<Time>)
    ensures
        out == time_literal(chars@),
{
    let n: usize = chars.len();
    if n < 2 {
        return None;
    }
    assert(chars@.take(n - 1) =~= chars@.drop_last());
    let unit = chars[n - 1];
    match parse_decimal(chars, n - 1) {
        Some(count) => {
            if unit == 'd' {
                Some(Time::Day(count))
            } else if unit == 'm' {
                Some(Time::Minute(count))
            } else if unit == 'M' {
                Some(Time::Month(count))
            } else if unit == 'y' {
                Some(Time::Year(count))
            } else {
                None
            }
        },
        None => None,
    }
}

/// Whether `chars` has the shape of a variable's name.
pub fn is_identifier_text(chars: &Vec<char>) -> (out: bool)
    ensures
        out == is_identifier(chars@),
{
    if chars.len() < 1 || !is_letter_char(chars[0]) {
        return false;
    }
    let mut i: usize = 1;
    while i < chars.len()
        invariant
            1 <= i <= chars@.len(),
            forall|k: int| 1 <= k < i ==> is_word(#[trigger] chars@[k]),
        decreases chars@.len() - i,
    {
        if !is_word_char(chars[i]) {
            return false;
        }
        i += 1;
    }
    true
}

impl VariableValue {
    /// A string value.
    pub fn string(text: &str) -> (out: Self)
        ensures
            out@ == ValueView::String(text@),
    {
        VariableValue::String(text.to_owned())
    }

    /// The number that `literal` denotes. The literal is taken as it is:
    /// see [`VariableValue::is_well_formed`].
    pub fn number(literal: &str) -> (out: Self)
        ensures
            out@ == ValueView::Number(literal@),
    {
        VariableValue::Number(literal.to_owned())
    }

    /// A boolean value.
    pub fn boolean(value: bool) -> (out: Self)
        ensures
            out@ == ValueView::Boolean(value),
    {
        VariableValue::Boolean(value)
    }

    /// A time span.
    pub fn time(value: Time) -> (out: Self)
        ensures
            out@ == ValueView::Time(value),
    {
        VariableValue::Time(value)
    }

    /// A number is written as a floating-point literal.
    pub open spec fn is_well_formed(&self) -> bool {
        self@.is_well_formed()
    }

    /// The value that `text` is read as. Every text has a value: what is
    /// neither a boolean, a time span nor a number is a string.
    pub fn infer(text: &str) -> (out: Self)
        ensures
            out@ == inferred(text@),
            out.is_well_formed(),
    {
        let chars = chars_of(text);
        let yes = vec!['t', 'r', 'u', 'e'];
        let no = vec!['f', 'a', 'l', 's', 'e'];
        assert(yes@ =~= true_text());
        assert(no@ =~= false_text());
        if same_chars(&chars, &yes) {
            return VariableValue::Boolean(true);
        }
        if same_chars(&chars, &no) {
            return VariableValue::Boolean(false);
        }
        if let Some(time) = parse_time(&chars) {
            return VariableValue::Time(time);
        }
        if is_number_text(&chars) {
            VariableValue::Number(text.to_owned())
        } else {
            VariableValue::String(text.to_owned())
        }
    }
}

impl Variable {
    /// The name is an identifier, and the value is well formed.
    pub open spec fn is_well_formed(&self) -> bool {
        self@.is_well_formed()
    }

    /// A variable with the given name and value.
    pub fn new(name: &str, value: VariableValue) -> (out: Self)
        ensures
            out@ == (VariableView { name: name@, value: value@ }),
    {
        Variable { name: name.to_owned(), value }
    }

    /// A variable with a string value.
    pub fn string(name: &str, text: &str) -> (out: Self)
        ensures
            out@ == (VariableView { name: name@, value: ValueView::String(text@) }),
    {
        Variable::new(name, VariableValue::string(text))
    }

    /// A variable whose value is the number that `literal` denotes.
    pub fn number(name: &str, literal: &str) -> (out: Self)
        ensures
            out@ == (VariableView { name: name@, value: ValueView::Number(literal@) }),
    {
        Variable::new(name, VariableValue::number(literal))
    }

    /// A variable with a boolean value.
    pub fn boolean(name: &str, value: bool) -> (out: Self)
        ensures
            out@ == (VariableView { name: name@, value: ValueView::Boolean(value) }),
    {
        Variable::new(name, VariableValue::boolean(value))
    }

    /// A variable with a time span as its value.
    pub fn time(name: &str, value: Time) -> (out: Self)
        ensures
            out@ == (VariableView { name: name@, value: ValueView::Time(value) }),
    {
        Variable::new(name, VariableValue::time(value))
    }

    /// The first variable that `input` holds: the first `$name=value` token
    /// that the variable pattern finds in it. The result is `None` where it
    /// finds none, and where the pattern is not accepted as a regular
    /// expression.
    pub fn parse(input: &str) -> (out: Option<Variable>)
        ensures
            out.deep_view() == if regex_compiles(VARIABLE_PATTERN@) {
                first_variable(regex_captures(VARIABLE_PATTERN@, input@))
            } else {
                None
            },
            out matches Some(variable) ==> variable.is_well_formed(),
    {
        if !compiles(VARIABLE_PATTERN) {
            return None;
        }
        let found = captures(VARIABLE_PATTERN, input);
        first_variable_of(&found)
    }
}

} // verus!
