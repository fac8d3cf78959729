use microdot_core::graph::{Time, Variable, VariableValue};
use microdot_core::hash::HashTag;
use microdot_core::labels::NodeInfo;
use microdot_core::pattern::VARIABLE_PATTERN;
use microdot_core::Label;
use regex::Regex;

#[test]
fn it_matches_variables() {
    let variables = vec![
        (
            "$name=John",
            Variable::new("name", VariableValue::string("John")),
        ),
        (
            "$age=25",
            Variable::new("age", VariableValue::number(&format!("{}", 25.0f64))),
        ),
        (
            "$is_cool=true",
            Variable::new("is_cool", VariableValue::boolean(true)),
        ),
        (
            "$delay=4d",
            Variable::new("delay", VariableValue::time(Time::Day(4))),
        ),
        (
            "$delay=4m",
            Variable::new("delay", VariableValue::time(Time::Minute(4))),
        ),
        (
            "$delay=4M",
            Variable::new("delay", VariableValue::time(Time::Month(4))),
        ),
        (
            "$delay=4y",
            Variable::new("delay", VariableValue::time(Time::Year(4))),
        ),
    ];

    let rx = Regex::new(VARIABLE_PATTERN).expect("not a regex");
    for (input, expected) in variables {
        assert!(rx.is_match(input), "could not match variable: {}", input);
        let actual = Variable::parse(input)
            .unwrap_or_else(|| panic!("could not parse variable: {}", input));
        assert_eq!(actual, expected);
    }
}

#[test]
fn it_parses_node_label_with_no_markup() {
    let actual = NodeInfo::parse(&Label("no hashtags".to_string()));
    let expected = NodeInfo {
        label: "no hashtags".to_string(),
        tags: Vec::new(),
        variables: Vec::new(),
        subgraph: None,
    };
    assert_eq!(actual, expected);
}

#[test]
fn it_parses_node_label_with_inner_hashtag() {
    let actual = NodeInfo::parse(&Label("a #hashtag in the middle".to_string()));
    let expected = NodeInfo {
        label: "a #hashtag in the middle".to_string(),
        tags: vec![HashTag::new("#hashtag")],
        variables: Vec::new(),
        subgraph: None,
    };
    assert_eq!(actual, expected);
}

#[test]
fn it_parses_node_label_with_end_hashtag() {
    let actual = NodeInfo::parse(&Label("a #hashtag at the #end".to_string()));
    let expected = NodeInfo {
        label: "a #hashtag at the".to_string(),
        tags: vec![HashTag::new("#end"), HashTag::new("#hashtag")],
        variables: Vec::new(),
        subgraph: None,
    };
    assert_eq!(actual, expected);
}

#[test]
fn it_parses_node_label_with_end_subgraph() {
    let actual = NodeInfo::parse(&Label(
        "a #hashtag in the middle and a #SG_SUBGRAPH".to_string(),
    ));
    let expected = NodeInfo {
        label: "a #hashtag in the middle and a".to_string(),
        tags: vec![HashTag::new("#hashtag")],
        variables: Vec::new(),
        subgraph: Some(HashTag::new("#SG_SUBGRAPH")),
    };
    assert_eq!(actual, expected);
}

#[test]
fn it_keeps_a_variable_token_in_the_label() {
    let actual = NodeInfo::parse(&Label("positive choice $choice=true".to_string()));
    let expected = NodeInfo {
        label: "positive choice $choice=true".to_string(),
        tags: vec![],
        variables: vec![Variable::boolean("choice", true)],
        subgraph: None,
    };
    assert_eq!(actual, expected);
}

#[test]
fn the_patterns_are_regular_expressions() {
    assert!(microdot_core::pattern::patterns_ready());
}

#[test]
fn try_parse_reads_what_parse_reads() {
    let label = Label("plan the #release $due=3d #SG_WORK".to_string());
    let expected = NodeInfo {
        label: "plan the #release $due=3d".to_string(),
        tags: vec![HashTag::new("#release")],
        variables: vec![Variable::time("due", Time::Day(3))],
        subgraph: Some(HashTag::new("#SG_WORK")),
    };
    assert_eq!(NodeInfo::try_parse(&label), Some(expected.clone()));
    assert_eq!(NodeInfo::parse(&label), expected);
}

#[test]
fn new_holds_the_label_and_nothing_else() {
    let info = NodeInfo::new("  as given #tag ");
    assert_eq!(info.label, "  as given #tag ");
    assert!(info.tags.is_empty());
    assert!(info.variables.is_empty());
    assert_eq!(info.subgraph, None);
}

#[test]
fn parsing_twice_reads_the_same() {
    let label = Label("b #z #a $k=v $k=w  #SG_ONE #y".to_string());
    let first = NodeInfo::parse(&label);
    let second = NodeInfo::parse(&label);
    assert_eq!(first, second);
    assert_eq!(first.label, "b #z #a $k=v $k=w");
    assert_eq!(
        first.tags,
        vec![HashTag::new("#a"), HashTag::new("#y"), HashTag::new("#z")]
    );
    assert_eq!(first.subgraph, Some(HashTag::new("#SG_ONE")));
}

#[test]
fn a_repeated_variable_is_kept_once() {
    let info = NodeInfo::parse(&Label("$x=1 $x=1".to_string()));
    assert_eq!(info.variables, vec![Variable::number("x", "1")]);
    assert_eq!(info.label, "$x=1 $x=1");
}

#[test]
fn one_name_may_have_two_values() {
    let info = NodeInfo::parse(&Label("$x=1 $x=2".to_string()));
    assert_eq!(info.variables.len(), 2);
    assert!(info.variables.contains(&Variable::number("x", "1")));
    assert!(info.variables.contains(&Variable::number("x", "2")));
    assert!(info.variables.iter().all(|v| v.name == "x"));
}

#[test]
fn variables_come_in_the_order_of_their_first_occurrence() {
    let info = NodeInfo::parse(&Label("$b=2 $a=1 $b=2 $c=x $a=1".to_string()));
    assert_eq!(
        info.variables,
        vec![
            Variable::number("b", "2"),
            Variable::number("a", "1"),
            Variable::string("c", "x"),
        ]
    );
}

#[test]
fn the_empty_label_reads_as_nothing() {
    let expected = NodeInfo {
        label: String::new(),
        tags: vec![],
        variables: vec![],
        subgraph: None,
    };
    assert_eq!(NodeInfo::parse(&Label(String::new())), expected);
    assert_eq!(NodeInfo::parse(&Label(" \t\n ".to_string())), expected);
}

#[test]
fn a_chain_of_trailing_tags_leaves_the_label() {
    let info = NodeInfo::parse(&Label("  task #c #a   #b \t".to_string()));
    assert_eq!(info.label, "task");
    assert_eq!(
        info.tags,
        vec![HashTag::new("#a"), HashTag::new("#b"), HashTag::new("#c")]
    );
}

#[test]
fn tags_that_touch_are_taken_one_by_one() {
    let info = NodeInfo::parse(&Label("x#a#b".to_string()));
    assert_eq!(info.label, "x");
    assert_eq!(info.tags, vec![HashTag::new("#a"), HashTag::new("#b")]);
}

#[test]
fn a_label_of_tags_only_has_no_text() {
    let info = NodeInfo::parse(&Label("#only".to_string()));
    assert_eq!(info.label, "");
    assert_eq!(info.tags, vec![HashTag::new("#only")]);
}

#[test]
fn a_tag_in_the_text_and_at_the_end_is_listed_once() {
    let info = NodeInfo::parse(&Label("#x marks it #x".to_string()));
    assert_eq!(info.label, "#x marks it");
    assert_eq!(info.tags, vec![HashTag::new("#x")]);
}

#[test]
fn of_several_subgraphs_the_first_is_kept() {
    let info = NodeInfo::parse(&Label("node #SG_B #tag #SG_A".to_string()));
    assert_eq!(info.label, "node");
    assert_eq!(info.tags, vec![HashTag::new("#tag")]);
    assert_eq!(info.subgraph, Some(HashTag::new("#SG_A")));
}

#[test]
fn a_subgraph_prefix_is_case_sensitive() {
    let info = NodeInfo::parse(&Label("node #sg_x #SGx".to_string()));
    assert_eq!(info.tags, vec![HashTag::new("#SGx"), HashTag::new("#sg_x")]);
    assert_eq!(info.subgraph, None);
}

#[test]
fn a_tag_begins_with_a_letter() {
    let info = NodeInfo::parse(&Label("issue #1 and #-x and # and #_y".to_string()));
    assert_eq!(info.label, "issue #1 and #-x and # and #_y");
    assert!(info.tags.is_empty());
}

#[test]
fn a_tag_runs_over_letters_digits_underscores_and_hyphens() {
    let info = NodeInfo::parse(&Label("v #a1_b-c. #Q9".to_string()));
    assert_eq!(info.label, "v #a1_b-c.");
    assert_eq!(info.tags, vec![HashTag::new("#Q9"), HashTag::new("#a1_b-c")]);
}

#[test]
fn text_outside_ascii_stays_in_the_label() {
    let info = NodeInfo::parse(&Label("caf\u{e9} #tag\u{e9} \u{2003}#end\u{3000}".to_string()));
    assert_eq!(info.label, "caf\u{e9} #tag\u{e9}");
    assert_eq!(info.tags, vec![HashTag::new("#end"), HashTag::new("#tag")]);
}

#[test]
fn a_variable_behind_the_last_tag_keeps_the_tag_in_the_label() {
    let info = NodeInfo::parse(&Label("do it #tag $p=1".to_string()));
    assert_eq!(info.label, "do it #tag $p=1");
    assert_eq!(info.tags, vec![HashTag::new("#tag")]);
    assert_eq!(info.variables, vec![Variable::number("p", "1")]);
}

#[test]
fn variables_are_read_from_the_cleaned_label() {
    let info = NodeInfo::parse(&Label(" wait $for=2m then $go=false #later ".to_string()));
    assert_eq!(info.label, "wait $for=2m then $go=false");
    assert_eq!(
        info.variables,
        vec![
            Variable::time("for", Time::Minute(2)),
            Variable::boolean("go", false),
        ]
    );
    assert_eq!(info.tags, vec![HashTag::new("#later")]);
}

#[test]
fn a_malformed_variable_is_plain_text() {
    let info = NodeInfo::parse(&Label("$=1 $1a=2 $a= $ a=1 a=1 $b".to_string()));
    assert_eq!(info.label, "$=1 $1a=2 $a= $ a=1 a=1 $b");
    assert!(info.variables.is_empty());
}

#[test]
fn extracting_again_from_a_cleaned_label_changes_nothing() {
    let first = NodeInfo::parse(&Label("a #hashtag at the #end".to_string()));
    let again = NodeInfo::parse(&Label(first.label.clone()));
    assert_eq!(again.label, first.label);
    assert_eq!(again.tags, vec![HashTag::new("#hashtag")]);

    let first = NodeInfo::parse(&Label(" plain text #a #b ".to_string()));
    let again = NodeInfo::parse(&Label(first.label.clone()));
    assert_eq!(again.label, "plain text");
    assert!(again.tags.is_empty());
}

#[test]
fn a_clone_is_equal() {
    let info = NodeInfo::parse(&Label("n #t $v=1 #SG_G".to_string()));
    assert_eq!(info.clone(), info);
    let label = Label("n".to_string());
    assert_eq!(label.clone(), label);
    assert_eq!(label.to_string(), "n");
}
