use microdot_core::clean::clean_label;
use microdot_core::graph::{is_identifier_text, Time, Variable, VariableValue};
use microdot_core::hash::{has_subgraph_prefix, is_hashtag_text, HashTag};
use microdot_core::labels::{extract_hashtags, extract_variables};
use microdot_core::tags::{hashtags_of, split_subgraph};
use microdot_core::variables::{
    first_variable_of, is_value_chars, variable_of, variables_of,
};

fn found(texts: &[&str]) -> Vec<Vec<Option<String>>> {
    texts.iter().map(|t| vec![Some(t.to_string())]).collect()
}

fn tags(texts: &[&str]) -> Vec<HashTag> {
    texts.iter().map(|t| HashTag::new(t)).collect()
}

fn token(whole: &str, name: Option<&str>, value: Option<&str>) -> Vec<Option<String>> {
    vec![
        Some(whole.to_string()),
        name.map(|s| s.to_string()),
        value.map(|s| s.to_string()),
    ]
}

fn chars(text: &str) -> Vec<char> {
    text.chars().collect()
}

#[test]
fn extract_hashtags_lists_the_tags_in_order() {
    let (found, label) = extract_hashtags("a #hashtag at the #end");
    assert_eq!(found, tags(&["#end", "#hashtag"]));
    assert_eq!(label, "a #hashtag at the");
}

#[test]
fn extract_hashtags_orders_capitals_before_small_letters() {
    let (found, label) = extract_hashtags("#b #a #B #aa #a-1 #a_1 #a1 #A");
    assert_eq!(
        found,
        tags(&["#A", "#B", "#a", "#a-1", "#a1", "#a_1", "#aa", "#b"])
    );
    assert_eq!(label, "");
}

#[test]
fn extract_hashtags_of_plain_text_only_trims() {
    let (found, label) = extract_hashtags("  no markup here\n");
    assert!(found.is_empty());
    assert_eq!(label, "no markup here");
}

#[test]
fn extract_variables_leaves_the_text_alone() {
    let (variables, text) = extract_variables("  $a=1 and #tag $b=on  ");
    assert_eq!(
        variables,
        vec![Variable::number("a", "1"), Variable::string("b", "on")]
    );
    assert_eq!(text, "  $a=1 and #tag $b=on  ");
}

#[test]
fn extract_variables_stops_a_value_at_the_first_other_character() {
    let (variables, _) = extract_variables("$rate=1.5 $when=3d, $who=me!");
    assert_eq!(
        variables,
        vec![
            Variable::number("rate", "1"),
            Variable::time("when", Time::Day(3)),
            Variable::string("who", "me"),
        ]
    );
}

#[test]
fn hashtags_of_sorts_and_drops_repeats() {
    let list = hashtags_of(&found(&["#b", "#a", "#b", "#c", "#a"]));
    assert_eq!(list, tags(&["#a", "#b", "#c"]));
}

#[test]
fn hashtags_of_nothing_is_empty() {
    assert!(hashtags_of(&Vec::new()).is_empty());
}

#[test]
fn hashtags_of_passes_over_what_has_not_the_shape_of_a_tag() {
    let mut matches = found(&["#ok", "", "#", "#1", "no", "#a b", "#\u{e9}", "#fine-1_"]);
    matches.push(vec![]);
    matches.push(vec![None]);
    matches.push(vec![None, Some("#hidden".to_string())]);
    assert_eq!(hashtags_of(&matches), tags(&["#fine-1_", "#ok"]));
}

#[test]
fn hashtags_of_reads_the_whole_match_only() {
    let matches = vec![vec![
        Some("#whole".to_string()),
        Some("#part".to_string()),
    ]];
    assert_eq!(hashtags_of(&matches), tags(&["#whole"]));
}

#[test]
fn clean_label_takes_the_trailing_run() {
    assert_eq!(
        clean_label("a #hashtag at the #end", &tags(&["#end", "#hashtag"])),
        "a #hashtag at the"
    );
    assert_eq!(clean_label("x #a #b #a  ", &tags(&["#a", "#b"])), "x");
    assert_eq!(clean_label(" x #a #b", &tags(&["#b"])), "x #a");
}

#[test]
fn clean_label_without_tags_trims() {
    assert_eq!(clean_label("\t padded #a \u{a0}", &[].to_vec()), "padded #a");
    assert_eq!(clean_label("", &tags(&["#a"])), "");
    assert_eq!(clean_label("   ", &tags(&["#a"])), "");
}

#[test]
fn clean_label_keeps_a_tag_that_is_not_at_the_end() {
    assert_eq!(
        clean_label("a #hashtag in the middle", &tags(&["#hashtag"])),
        "a #hashtag in the middle"
    );
    assert_eq!(clean_label("#a.", &tags(&["#a"])), "#a.");
}

#[test]
fn clean_label_takes_a_tag_only_where_it_ends_the_text() {
    assert_eq!(clean_label("see #ab", &tags(&["#a", "#b"])), "see #ab");
    assert_eq!(clean_label("see #a", &tags(&["#ab"])), "see #a");
}

#[test]
fn clean_label_passes_over_the_empty_tag() {
    assert_eq!(clean_label("text #a", &tags(&["", "#a"])), "text");
    assert_eq!(clean_label("text", &tags(&[""])), "text");
}

#[test]
fn clean_label_is_idempotent() {
    let list = tags(&["#a", "#b"]);
    for input in ["x #a #b", "  #a x #b  ", "#a#b", "x", "", " #b y #a z "] {
        let once = clean_label(input, &list);
        assert_eq!(clean_label(&once, &list), once);
    }
}

#[test]
fn split_subgraph_parts_the_tags() {
    let (ordinary, subgraph) = split_subgraph(&tags(&["#SG_ONE", "#a", "#b"]));
    assert_eq!(ordinary, tags(&["#a", "#b"]));
    assert_eq!(subgraph, Some(HashTag::new("#SG_ONE")));
}

#[test]
fn split_subgraph_without_a_subgraph() {
    let (ordinary, subgraph) = split_subgraph(&tags(&["#SG", "#Sg_x", "#a"]));
    assert_eq!(ordinary, tags(&["#SG", "#Sg_x", "#a"]));
    assert_eq!(subgraph, None);
    assert_eq!(split_subgraph(&Vec::new()), (Vec::new(), None));
}

#[test]
fn split_subgraph_keeps_the_first_and_drops_the_others() {
    let (ordinary, subgraph) = split_subgraph(&tags(&["#SG_A", "#SG_B", "#z", "#SG_C"]));
    assert_eq!(ordinary, tags(&["#z"]));
    assert_eq!(subgraph, Some(HashTag::new("#SG_A")));
}

#[test]
fn the_subgraph_prefix_alone_names_a_subgraph() {
    assert!(HashTag::new("#SG_").is_subgraph());
    assert!(HashTag::new("#SG_X").is_subgraph());
    assert!(!HashTag::new("#SG").is_subgraph());
    assert!(!HashTag::new("#sg_x").is_subgraph());
    assert!(!HashTag::new("SG_x").is_subgraph());
    assert!(has_subgraph_prefix(&chars("#SG_1")));
    assert!(!has_subgraph_prefix(&chars("")));
}

#[test]
fn the_shape_of_a_hashtag() {
    for text in ["#a", "#Z9", "#a-b_c", "#SG_x", "#a--", "#a_"] {
        assert!(is_hashtag_text(&chars(text)), "{}", text);
    }
    for text in ["", "#", "a", "#1", "#_a", "#-a", "##a", "#a#", "#a b", "#\u{e9}", " #a", "#a "] {
        assert!(!is_hashtag_text(&chars(text)), "{}", text);
    }
}

#[test]
fn hashtags_are_equal_and_ordered_as_their_texts() {
    let texts = ["#A", "#B", "#a", "#a-1", "#a1", "#a_1", "#aa", "#b", "#\u{e9}"];
    for (i, x) in texts.iter().enumerate() {
        for (j, y) in texts.iter().enumerate() {
            let (a, b) = (HashTag::new(x), HashTag::new(y));
            assert_eq!(a == b, i == j);
            assert_eq!(a < b, i < j);
            assert_eq!(a.partial_cmp(&b), x.partial_cmp(y));
            assert_eq!(a.cmp(&b), x.cmp(y));
        }
    }
}

#[test]
fn a_hashtag_gives_its_text_back() {
    let tag = HashTag::new("#text");
    assert_eq!(tag.to_string(), "#text");
    assert_eq!(tag.as_str(), "#text");
    assert_eq!(tag.clone(), tag);
}

#[test]
fn variable_of_reads_name_and_value() {
    assert_eq!(
        variable_of(&token("$delay=4d", Some("delay"), Some("4d"))),
        Some(Variable::time("delay", Time::Day(4)))
    );
    assert_eq!(
        variable_of(&token("$a-b_1=x-y_2", Some("a-b_1"), Some("x-y_2"))),
        Some(Variable::string("a-b_1", "x-y_2"))
    );
}

#[test]
fn variable_of_needs_both_groups() {
    assert_eq!(variable_of(&token("$a=1", None, Some("1"))), None);
    assert_eq!(variable_of(&token("$a=1", Some("a"), None)), None);
    assert_eq!(variable_of(&vec![Some("$a=1".to_string()), Some("a".to_string())]), None);
    assert_eq!(variable_of(&vec![]), None);
}

#[test]
fn variable_of_needs_an_identifier_and_a_value() {
    assert_eq!(variable_of(&token("", Some(""), Some("1"))), None);
    assert_eq!(variable_of(&token("", Some("1a"), Some("1"))), None);
    assert_eq!(variable_of(&token("", Some("_a"), Some("1"))), None);
    assert_eq!(variable_of(&token("", Some("a b"), Some("1"))), None);
    assert_eq!(variable_of(&token("", Some("a"), Some(""))), None);
    assert_eq!(variable_of(&token("", Some("a"), Some("1.5"))), None);
    assert_eq!(variable_of(&token("", Some("a"), Some("x y"))), None);
}

#[test]
fn variables_of_keeps_each_variable_once() {
    let matches = vec![
        token("$x=1", Some("x"), Some("1")),
        token("$y=1", Some("y"), Some("1")),
        token("$x=1", Some("x"), Some("1")),
        token("$x=2", Some("x"), Some("2")),
        token("$bad", None, None),
        token("$y=1", Some("y"), Some("1")),
    ];
    assert_eq!(
        variables_of(&matches),
        vec![
            Variable::number("x", "1"),
            Variable::number("y", "1"),
            Variable::number("x", "2"),
        ]
    );
    assert!(variables_of(&Vec::new()).is_empty());
}

#[test]
fn first_variable_of_passes_over_what_stands_for_none() {
    let matches = vec![
        token("$bad", None, None),
        token("$1=1", Some("1"), Some("1")),
        token("$x=no", Some("x"), Some("no")),
        token("$y=1", Some("y"), Some("1")),
    ];
    assert_eq!(first_variable_of(&matches), Some(Variable::string("x", "no")));
    assert_eq!(first_variable_of(&Vec::new()), None);
}

#[test]
fn parse_reads_the_first_variable() {
    assert_eq!(
        Variable::parse("then $first=1 and $second=2"),
        Some(Variable::number("first", "1"))
    );
    assert_eq!(Variable::parse("no variable $here"), None);
    assert_eq!(Variable::parse(""), None);
}

#[test]
fn the_constructors_of_a_variable() {
    assert_eq!(
        Variable::string("n", "text"),
        Variable { name: "n".to_string(), value: VariableValue::String("text".to_string()) }
    );
    assert_eq!(
        Variable::number("n", "1e3"),
        Variable { name: "n".to_string(), value: VariableValue::Number("1e3".to_string()) }
    );
    assert_eq!(
        Variable::boolean("n", false),
        Variable { name: "n".to_string(), value: VariableValue::Boolean(false) }
    );
    assert_eq!(
        Variable::time("n", Time::Year(2)),
        Variable { name: "n".to_string(), value: VariableValue::Time(Time::Year(2)) }
    );
    let variable = Variable::new("n", VariableValue::time(Time::Month(1)));
    assert_eq!(variable.clone(), variable);
    assert_ne!(variable, Variable::time("m", Time::Month(1)));
    assert_ne!(variable, Variable::time("n", Time::Minute(1)));
}

#[test]
fn the_shape_of_a_name_and_of_a_value() {
    for text in ["a", "Z", "a1", "a_b-c", "n-", "x__"] {
        assert!(is_identifier_text(&chars(text)), "{}", text);
        assert!(is_value_chars(&chars(text)), "{}", text);
    }
    for text in ["1", "1a", "_a", "-a", "007", "-", "_"] {
        assert!(!is_identifier_text(&chars(text)), "{}", text);
        assert!(is_value_chars(&chars(text)), "{}", text);
    }
    for text in ["", " ", "a b", "a.b", "a=b", "$a", "\u{e9}", "a\u{e9}"] {
        assert!(!is_identifier_text(&chars(text)), "{:?}", text);
        assert!(!is_value_chars(&chars(text)), "{:?}", text);
    }
}
