//! Metadata embedded in the labels of diagram nodes.
//!
//! The label of a node is free text. A `#tag` in it is a hashtag, a hashtag
//! that begins with `#SG_` names the subgraph of the node, and `$name=value`
//! gives the node a variable. [`labels::NodeInfo::parse`] reads a label: the
//! hashtags at its end are taken out of the text to display, the others stay
//! where they are, and so do the variables.
//!
//! The library is verified with Verus. A string is modelled as the sequence
//! of its characters, and each function says in its contract what it returns
//! as a function of these sequences.
//!
//! - [`text`]: character classes, trimming, the order of strings.
//! - [`literal`]: decimal integers and floating-point literals.
//! - [`pattern`]: the patterns of hashtags and variables, and the searches
//!   that the `regex` crate makes with them. What a search returns is named,
//!   not proved; everything else is proved for whatever it returns.
//! - [`hash`]: the hashtag.
//! - [`tags`]: the list of the hashtags found, and its subgraph.
//! - [`clean`]: the text to display.
//! - [`graph`]: variables and the values inferred for them.
//! - [`variables`]: the list of the variables found.
//! - [`labels`]: the reading of a label.
//! - [`laws`]: what holds of every reading.
//!
//! A number is held as the literal that denotes it: the library has no
//! floating-point arithmetic, and leaves the conversion to its callers.

pub mod clean;
pub mod graph;
pub mod hash;
pub mod labels;
pub mod laws;
pub mod literal;
pub mod pattern;
pub mod tags;
pub mod text;
pub mod variables;

use vstd::prelude::*;

verus! {

/// The text of a node's label, as its author wrote it.
#[derive(Debug, PartialEq, Eq, Hash)]
pub struct Label(pub String);

impl Clone for Label {
    fn clone(&self) -> (out: Self)
        ensures
            out@ == self@,
    {
        Label(self.0.clone())
    }
}

impl View for Label {
    type V = Seq<char>;

    open spec fn view(&self) -> Seq<char> {
        self.0@
    }
}

impl Label {
    /// The text of the label, as a new string.
    pub fn to_string(&self) -> (out: String)
        ensures
            out@ == self@,
    {
        self.0.clone()
    }
}

} // verus!
