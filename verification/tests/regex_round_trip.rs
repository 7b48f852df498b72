use nl_learner::automata::AutomataImpl;
use nl_learner::languages::{AnBn, BaBStar};
use nl_learner::mat::MatImpl;
use nl_learner::nl::NlImpl;

/// A regular expression over single characters with `|`, `*`, `?` and
/// parentheses.
#[derive(Debug)]
enum Regex {
    Empty,
    Symbol(char),
    Sequence(Vec<Regex>),
    Choice(Vec<Regex>),
    Star(Box<Regex>),
    Optional(Box<Regex>),
}

fn parse_choice(text: &[char], at: &mut usize) -> Regex {
    let mut branches = vec![parse_sequence(text, at)];
    while *at < text.len() && text[*at] == '|' {
        *at += 1;
        branches.push(parse_sequence(text, at));
    }
    if branches.len() == 1 {
        branches.pop().unwrap()
    } else {
        Regex::Choice(branches)
    }
}

fn parse_sequence(text: &[char], at: &mut usize) -> Regex {
    let mut parts = Vec::new();
    while *at < text.len() && text[*at] != '|' && text[*at] != ')' {
        let mut atom = if text[*at] == '(' {
            *at += 1;
            let inner = parse_choice(text, at);
            assert_eq!(text[*at], ')');
            *at += 1;
            inner
        } else {
            let symbol = text[*at];
            assert!(symbol != '*' && symbol != '?');
            *at += 1;
            Regex::Symbol(symbol)
        };
        while *at < text.len() && (text[*at] == '*' || text[*at] == '?') {
            atom = if text[*at] == '*' { Regex::Star(Box::new(atom)) } else { Regex::Optional(Box::new(atom)) };
            *at += 1;
        }
        parts.push(atom);
    }
    if parts.is_empty() {
        Regex::Empty
    } else {
        Regex::Sequence(parts)
    }
}

fn parse(text: &str) -> Regex {
    let text: Vec<char> = text.chars().collect();
    let mut at = 0;
    let regex = parse_choice(&text, &mut at);
    assert_eq!(at, text.len());
    regex
}

/// The positions at which a match of `regex` that starts at one of `from`
/// can end.
fn ends(regex: &Regex, word: &[char], from: &[bool]) -> Vec<bool> {
    match regex {
        Regex::Empty => from.to_vec(),
        Regex::Symbol(symbol) => {
            let mut out = vec![false; from.len()];
            for i in 0..word.len() {
                if from[i] && word[i] == *symbol {
                    out[i + 1] = true;
                }
            }
            out
        }
        Regex::Sequence(parts) => {
            let mut now = from.to_vec();
            for part in parts {
                now = ends(part, word, &now);
            }
            now
        }
        Regex::Choice(branches) => {
            let mut out = vec![false; from.len()];
            for branch in branches {
                for (i, end) in ends(branch, word, from).into_iter().enumerate() {
                    out[i] = out[i] || end;
                }
            }
            out
        }
        Regex::Star(inner) => {
            let mut out = from.to_vec();
            loop {
                let next = ends(inner, word, &out);
                let mut grown = false;
                for i in 0..out.len() {
                    if next[i] && !out[i] {
                        out[i] = true;
                        grown = true;
                    }
                }
                if !grown {
                    return out;
                }
            }
        }
        Regex::Optional(inner) => {
            let mut out = ends(inner, word, from);
            for i in 0..out.len() {
                out[i] = out[i] || from[i];
            }
            out
        }
    }
}

fn matches(regex: &Regex, word: &str) -> bool {
    let word: Vec<char> = word.chars().collect();
    let mut from = vec![false; word.len() + 1];
    from[0] = true;
    ends(regex, &word, &from)[word.len()]
}

/// All words over `alphabet` of at most `max_len` characters.
fn words(alphabet: &str, max_len: usize) -> Vec<String> {
    let mut all = vec![String::new()];
    let mut frontier = vec![String::new()];
    for _ in 0..max_len {
        let mut next = Vec::new();
        for word in &frontier {
            for letter in alphabet.chars() {
                next.push(format!("{word}{letter}"));
            }
        }
        all.extend(next.iter().cloned());
        frontier = next;
    }
    all
}

fn agree(automata: &AutomataImpl, alphabet: &str, max_len: usize) {
    let text = automata.to_regex().unwrap();
    let regex = parse(&text);
    for word in words(alphabet, max_len) {
        assert_eq!(matches(&regex, &word), automata.check_membership(&word), "regex {text:?}, word {word:?}");
    }
}

#[test]
fn the_matcher_knows_the_operators() {
    let regex = parse("(a|bc)*d?");
    assert!(matches(&regex, ""));
    assert!(matches(&regex, "abcad"));
    assert!(matches(&regex, "d"));
    assert!(!matches(&regex, "dd"));
    assert!(!matches(&regex, "b"));
    assert!(matches(&parse(""), ""));
    assert!(!matches(&parse(""), "a"));
    assert!(matches(&parse("()?"), ""));
}

#[test]
fn regex_of_the_learned_b_a_b_star_accepts_what_the_automaton_accepts() {
    let mat = MatImpl::new("ab", BaBStar, 200, 7);
    let mut nl = NlImpl::new(&mat);
    let dfa = nl.get_nfa(50).unwrap().determinize();
    assert_eq!(dfa.to_regex(), Some("bab*".to_string()));
    agree(&dfa, "ab", 7);
}

#[test]
fn regex_of_the_learned_bounded_a_n_b_n_accepts_what_the_automaton_accepts() {
    let mat = MatImpl::new("ab", AnBn, 100, 5);
    let mut nl = NlImpl::new(&mat);
    let dfa = nl.get_nfa(50).unwrap().determinize();
    assert_eq!(dfa.to_regex(), Some("(ab|aabb)".to_string()));
    agree(&dfa, "ab", 7);
}

#[test]
fn regex_of_an_automaton_with_loops_and_branches_accepts_what_the_automaton_accepts() {
    // (ab)* c (b c*)?
    let mut automata = AutomataImpl::new(5);
    automata.transitions[0][4] = Some("a".to_string());
    automata.transitions[4][3] = Some("b".to_string());
    automata.transitions[3][4] = Some("a".to_string());
    automata.transitions[0][1] = Some("c".to_string());
    automata.transitions[3][1] = Some("c".to_string());
    automata.transitions[1][2] = Some("b".to_string());
    automata.transitions[2][2] = Some("c".to_string());
    automata.finite_states[1] = true;
    automata.finite_states[2] = true;
    assert!(automata.check_membership("ababcbcc"));
    assert!(automata.check_membership("c"));
    assert!(!automata.check_membership("abcb c"));
    assert!(!automata.check_membership("ab"));
    agree(&automata, "abc", 7);
}

#[test]
fn regex_of_the_empty_word_alone_matches_the_empty_word_alone() {
    let mut automata = AutomataImpl::new(1);
    automata.finite_states[0] = true;
    agree(&automata, "ab", 3);
}
