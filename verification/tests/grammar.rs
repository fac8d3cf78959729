use microdot_core::graph::{Variable, VariableValue};
use microdot_core::hash::HashTag;
use microdot_core::labels::{extract_hashtags, extract_variables};

fn is_word(c: char) -> bool {
    c.is_ascii_alphanumeric() || c == '_' || c == '-'
}

fn word_end(text: &[char], from: usize) -> usize {
    let mut end = from;
    while end < text.len() && is_word(text[end]) {
        end += 1;
    }
    end
}

fn hashtags_by_hand(text: &[char]) -> Vec<String> {
    let mut tags: Vec<String> = Vec::new();
    for at in 0..text.len() {
        if text[at] == '#' && at + 1 < text.len() && text[at + 1].is_ascii_alphabetic() {
            tags.push(text[at..word_end(text, at + 2)].iter().collect());
        }
    }
    tags.sort();
    tags.dedup();
    tags
}

fn variables_by_hand(text: &[char]) -> Vec<Variable> {
    let mut variables: Vec<Variable> = Vec::new();
    for at in 0..text.len() {
        if text[at] == '$' && at + 1 < text.len() && text[at + 1].is_ascii_alphabetic() {
            let name_end = word_end(text, at + 1);
            if name_end < text.len() && text[name_end] == '=' {
                let value_end = word_end(text, name_end + 1);
                if value_end > name_end + 1 {
                    let name: String = text[at + 1..name_end].iter().collect();
                    let value: String = text[name_end + 1..value_end].iter().collect();
                    let variable = Variable::new(&name, VariableValue::infer(&value));
                    if !variables.contains(&variable) {
                        variables.push(variable);
                    }
                }
            }
        }
    }
    variables
}

fn texts(alphabet: &[char], length: usize) -> Vec<Vec<char>> {
    let mut all: Vec<Vec<char>> = vec![Vec::new()];
    let mut last: Vec<Vec<char>> = vec![Vec::new()];
    for _ in 0..length {
        let mut next = Vec::new();
        for text in &last {
            for c in alphabet {
                let mut longer = text.clone();
                longer.push(*c);
                next.push(longer);
            }
        }
        all.extend(next.iter().cloned());
        last = next;
    }
    all
}

#[test]
fn the_search_finds_the_hashtags_of_the_grammar() {
    for text in texts(&['#', 'a', 'Z', '1', '_', '-', ' ', '\u{e9}'], 4) {
        let input: String = text.iter().collect();
        let (found, _) = extract_hashtags(&input);
        let expected: Vec<HashTag> =
            hashtags_by_hand(&text).iter().map(|t| HashTag::new(t)).collect();
        assert_eq!(found, expected, "{:?}", input);
    }
}

#[test]
fn the_search_finds_the_variables_of_the_grammar() {
    for text in texts(&['$', '=', 'a', '1', '-', ' '], 5) {
        let input: String = text.iter().collect();
        let (found, _) = extract_variables(&input);
        assert_eq!(found, variables_by_hand(&text), "{:?}", input);
    }
}

#[test]
fn extracting_again_finds_nothing_new() {
    for text in texts(&['#', 'a', 'b', ' ', '-'], 5) {
        let input: String = text.iter().collect();
        let (tags, label) = extract_hashtags(&input);
        let (tags_again, label_again) = extract_hashtags(&label);
        assert_eq!(label_again, label, "{:?}", input);
        assert!(tags_again.iter().all(|tag| tags.contains(tag)), "{:?}", input);
    }
}

#[test]
fn the_text_to_display_keeps_the_variables() {
    for text in texts(&['$', '=', 'a', '#', ' '], 5) {
        let input: String = text.iter().collect();
        let (_, label) = extract_hashtags(&input);
        assert_eq!(extract_variables(&label).0, extract_variables(&input).0, "{:?}", input);
    }
}

fn trimmed_in_passes(input: &str, tags: &[&str]) -> String {
    let mut label = input.to_string();
    let mut work_done = true;
    while work_done {
        label = label.trim().to_string();
        work_done = false;
        for tag in tags {
            if label.ends_with(tag) {
                label.truncate(label.len() - tag.len());
                work_done = true;
            }
        }
    }
    label
}

#[test]
fn taking_the_tags_in_passes_leaves_the_same_text() {
    for text in texts(&['#', 'a', 'b', ' ', '.'], 5) {
        let input: String = text.iter().collect();
        let (tags, label) = extract_hashtags(&input);
        let mut order: Vec<&str> = tags.iter().map(|tag| tag.as_str()).collect();
        assert_eq!(trimmed_in_passes(&input, &order), label, "{:?}", input);
        order.reverse();
        assert_eq!(trimmed_in_passes(&input, &order), label, "{:?}", input);
    }
}
