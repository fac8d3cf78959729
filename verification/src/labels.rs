//! What a label says about its node: the text to display, the hashtags,
//! the variables and the subgraph.

use crate::clean::{clean_label, cleaned, ends_with_no_tag};
use crate::graph::{Variable, VariableView};
use crate::hash::{is_hashtag, is_subgraph_tag, HashTag};
use crate::laws::lemma_parsed;
use crate::pattern::{
    captures, patterns_compile, patterns_ready, regex_captures, regex_compiles,
    HASHTAG_PATTERN, VARIABLE_PATTERN,
};
use crate::tags::{
    hashtags_of, is_tag_list, ordinary_tags, split_subgraph, subgraph_of, tag_list,
};
use crate::text::{is_increasing, is_trimmed};
use crate::variables::{distinct, variables_in, variables_of};
use crate::Label;
use vstd::prelude::*;

verus! {

/// What a label says about its node.
#[derive(Debug, PartialEq)]
pub struct NodeInfo {
    /// The text to display.
    pub label: String,
    /// The hashtags that annotate the node, in increasing order.
    pub tags: Vec<HashTag>,
    /// The variables of the node. Their order carries no meaning.
    pub variables: Vec<Variable>,
    /// The hashtag that names the subgraph of the node.
    pub subgraph: Option<HashTag>,
}

/// The mathematical value of a [`NodeInfo`].
pub struct NodeInfoView {
    pub label: Seq<char>,
    pub tags: Seq<Seq<char>>,
    pub variables: Seq<VariableView>,
    pub subgraph: Option<Seq<char>>,
}

impl View for NodeInfo {
    type V = NodeInfoView;

    open spec fn view(&self) -> NodeInfoView {
        NodeInfoView {
            label: self.label@,
            tags: self.tags.deep_view(),
            variables: self.variables.deep_view(),
            subgraph: self.subgraph.deep_view(),
        }
    }
}

impl Clone for NodeInfo {
    fn clone(&self) -> (out: Self)
        ensures
            out@ == self@,
    {
        let mut tags: Vec<HashTag> = Vec::new();
        let mut i: usize = 0;
        while i < self.tags.len()
            invariant
                i <= self.tags@.len(),
                tags.deep_view() == self.tags.deep_view().take(i as int),
            decreases self.tags@.len() - i,
        {
            let ghost before = tags.deep_view();
            tags.push(self.tags[i].clone());
            assert(tags.deep_view() =~= before.push(self.tags@[i as int]@));
            i += 1;
            assert(tags.deep_view() =~= self.tags.deep_view().take(i as int));
        }
        assert(tags.deep_view() =~= self.tags.deep_view());
        let mut variables: Vec<Variable> = Vec::new();
        let mut k: usize = 0;
        while k < self.variables.len()
            invariant
                k <= self.variables@.len(),
                variables.deep_view() == self.variables.deep_view().take(k as int),
            decreases self.variables@.len() - k,
        {
            let ghost before = variables.deep_view();
            variables.push(self.variables[k].clone());
            assert(variables.deep_view() =~= before.push(self.variables@[k as int]@));
            k += 1;
            assert(variables.deep_view() =~= self.variables.deep_view().take(k as int));
        }
        assert(variables.deep_view() =~= self.variables.deep_view());
        let subgraph = match &self.subgraph {
            Some(tag) => Some(tag.clone()),
            None => None,
        };
        NodeInfo { label: self.label.clone(), tags, variables, subgraph }
    }
}

impl NodeInfoView {
    /// What holds of every node info that comes from a label.
    pub open spec fn is_well_formed(self) -> bool {
        &&& is_increasing(self.tags)
        &&& forall|i: int|
            0 <= i < self.tags.len() ==> is_hashtag(#[trigger] self.tags[i]) && !is_subgraph_tag(
                self.tags[i],
            )
        &&& self.subgraph matches Some(tag) ==> is_hashtag(tag) && is_subgraph_tag(tag)
        &&& ends_with_no_tag(self.label, self.tags)
        &&& self.subgraph matches Some(tag) ==> !tag.is_suffix_of(self.label)
        &&& self.variables.no_duplicates()
        &&& forall|i: int|
            0 <= i < self.variables.len() ==> (#[trigger] self.variables[i]).is_well_formed()
    }
}

/// What the label `input` says about its node. The hashtags are looked for
/// in `input`, the variables in the text to display.
pub open spec fn parsed(input: Seq<char>) -> NodeInfoView {
    let all = tag_list(regex_captures(HASHTAG_PATTERN@, input));
    let label = cleaned(input, all);
    NodeInfoView {
        label,
        tags: ordinary_tags(all),
        variables: distinct(variables_in(regex_captures(VARIABLE_PATTERN@, label))),
        subgraph: subgraph_of(all),
    }
}

/// Finds the hashtags of `input` and takes the trailing ones out of the
/// text.
///
/// The first part of the result lists every hashtag that the hashtag pattern
/// finds anywhere in `input`, each once, in increasing order. The second
/// part is the text to display: see [`clean_label`].
pub fn extract_hashtags(input: &str) -> (out: (Vec<HashTag>, String))
    requires
        regex_compiles(HASHTAG_PATTERN@),
    ensures
        out.0.deep_view() == tag_list(regex_captures(HASHTAG_PATTERN@, input@)),
        is_tag_list(out.0.deep_view(), regex_captures(HASHTAG_PATTERN@, input@)),
        out.1@ == cleaned(input@, out.0.deep_view()),
{
    let found = captures(HASHTAG_PATTERN, input);
    let tags = hashtags_of(&found);
    let label = clean_label(input, &tags);
    (tags, label)
}

/// Finds the variables of `input`: one for each `$name=value` token that
/// the variable pattern finds, each variable once, in the order in which
/// they first occur. The text comes back as it was: the tokens stay in it.
pub fn extract_variables(input: &str) -> (out: (Vec<Variable>, String))
    requires
        regex_compiles(VARIABLE_PATTERN@),
    ensures
        out.0.deep_view() == distinct(variables_in(regex_captures(VARIABLE_PATTERN@, input@))),
        out.0.deep_view().no_duplicates(),
        forall|i: int| 0 <= i < out.0@.len() ==> (#[trigger] out.0@[i]).is_well_formed(),
        out.1@ == input@,
{
    let found = captures(VARIABLE_PATTERN, input);
    let variables = variables_of(&found);
    (variables, input.to_owned())
}

impl NodeInfo {
    /// A node info with the given text to display and nothing else.
    pub fn new(label: &str) -> (info: NodeInfo)
        ensures
            info@ == (NodeInfoView {
                label: label@,
                tags: Seq::empty(),
                variables: Seq::empty(),
                subgraph: None,
            }),
            info@.is_well_formed(),
    {
        let info = NodeInfo {
            label: label.to_owned(),
            tags: Vec::new(),
            variables: Vec::new(),
            subgraph: None,
        };
        assert(info.tags.deep_view() =~= Seq::empty());
        assert(info.variables.deep_view() =~= Seq::empty());
        info
    }

    /// Reads a label: the text to display, the hashtags, the variables and
    /// the subgraph.
    ///
    /// Every label has a reading; text that is no tag and no variable is
    /// left in the text to display.
    pub fn parse(label: &Label) -> (info: NodeInfo)
        requires
            patterns_compile(),
        ensures
            info@ == parsed(label@),
            info@.is_well_formed(),
            is_trimmed(info@.label),
    {
        let base_label = label.to_string();
        let (all, text) = extract_hashtags(base_label.as_str());
        let (variables, text) = extract_variables(text.as_str());
        let (tags, subgraph) = split_subgraph(&all);
        proof {
            lemma_parsed(label@);
        }
        NodeInfo { label: text, tags, variables, subgraph }
    }

    /// Reads a label where the patterns of the label grammar are accepted as
    /// regular expressions, and returns `None` where they are not.
    pub fn try_parse(label: &Label) -> (out: Option<NodeInfo>)
        ensures
            out is Some <==> patterns_compile(),
            out matches Some(info) ==> info@ == parsed(label@) && info@.is_well_formed()
                && is_trimmed(info@.label),
    {
        if patterns_ready() {
            Some(NodeInfo::parse(label))
        } else {
            None
        }
    }
}

} // verus!
