use gptbpe::earley::{string_to_rule, Chart, Grammar, State};

fn strings(words: &[&str]) -> Vec<String> {
    words.iter().map(|w| w.to_string()).collect()
}

#[test]
fn rule_is_split_into_alternatives() {
    let (lhs, alternatives) = string_to_rule(" NP -> Det N | N |  Adj  NP ");
    assert_eq!(lhs, "NP");
    assert_eq!(
        alternatives,
        vec![strings(&["Det", "N"]), strings(&["N"]), strings(&["Adj", "NP"])]
    );
}

#[test]
fn rules_accumulate_by_symbol() {
    let mut grammar = Grammar::new();
    assert!(grammar.rhs("S").is_none());
    let (key, before, now) = grammar.add("S -> NP VP");
    assert_eq!(key, "S");
    assert!(before.is_empty());
    assert_eq!(now, vec![strings(&["NP", "VP"])]);
    let (_, before, now) = grammar.add("S -> VP");
    assert_eq!(before, vec![strings(&["NP", "VP"])]);
    assert_eq!(now, vec![strings(&["VP"]), strings(&["NP", "VP"])]);
    assert_eq!(grammar.rhs("S").unwrap().len(), 2);
    assert!(grammar.rhs("VP").is_none());
}

#[test]
fn chart_and_state_bookkeeping() {
    let grammar = Grammar::new();
    let chart = Chart::new(&strings(&["she", "eats"]));
    let state = State::new("S", strings(&["NP", "VP"]), 0, 0, 0);
    assert!(!state.complete && !state.changed);
    assert!(!state.non_terminal(&grammar));
    assert!(state.predict(&grammar, &chart).is_none());
    assert!(state.scan(&grammar, &chart, "she").is_none());
    assert!(state.complete(&grammar, &chart).is_none());
    assert_eq!(chart.add(0, state), (0, state, state));
    assert_eq!(chart.count(0), 0);
    assert!(!chart.append(state));
    assert_eq!(chart.get(0), state);
}
