use automaton_router::automaton::{Automaton, Iter, Token};
use automaton_router::router::method::Method;
use automaton_router::router::state::{AutomatonState, Capture};
use automaton_router::router::token::InputToken;

type Machine = Automaton<InputToken, Capture, u32>;

fn capture(name: &str) -> Capture {
    Capture { name: name.to_string() }
}

#[test]
fn new_automaton_has_the_start_node_only() {
    let automaton = Machine::new();
    assert_eq!(automaton.len(), 1);
    assert_eq!(automaton.start(), 0);
    assert_eq!(automaton.edge(0, InputToken::Char('a')), None);
    assert!(automaton.transition(0).is_none());
    assert!(automaton.payload(0).is_none());
}

#[test]
fn new_node_is_appended_and_empty() {
    let mut automaton = Machine::new();
    assert_eq!(automaton.new_node(), 1);
    assert_eq!(automaton.new_node(), 2);
    assert_eq!(automaton.len(), 3);
    assert_eq!(automaton.edge(1, InputToken::Char('a')), None);
    assert!(automaton.payload(2).is_none());
}

#[test]
fn get_or_create_edge_creates_once() {
    let mut automaton = Machine::new();
    let a = automaton.get_or_create_edge(0, InputToken::Char('a'));
    assert_eq!(a, 1);
    assert_eq!(automaton.len(), 2);
    assert_eq!(automaton.get_or_create_edge(0, InputToken::Char('a')), 1);
    assert_eq!(automaton.len(), 2);
    let b = automaton.get_or_create_edge(0, InputToken::Char('b'));
    assert_eq!(b, 2);
    let ab = automaton.get_or_create_edge(a, InputToken::Char('b'));
    assert_eq!(ab, 3);
    assert_eq!(automaton.edge(0, InputToken::Char('a')), Some(1));
    assert_eq!(automaton.edge(0, InputToken::Char('b')), Some(2));
    assert_eq!(automaton.edge(1, InputToken::Char('b')), Some(3));
    assert_eq!(automaton.edge(1, InputToken::Char('a')), None);
}

#[test]
fn method_and_character_tokens_are_distinct_edges() {
    let mut automaton = Machine::new();
    let get = automaton.get_or_create_edge(0, InputToken::Method(Method::Get));
    let post = automaton.get_or_create_edge(0, InputToken::Method(Method::Post));
    let nul = automaton.get_or_create_edge(0, InputToken::Char('\0'));
    let top = automaton.get_or_create_edge(0, InputToken::Char('\u{10FFFF}'));
    assert_eq!([get, post, nul, top], [1, 2, 3, 4]);
    assert_eq!(automaton.edge(0, InputToken::Method(Method::Get)), Some(1));
    assert_eq!(automaton.edge(0, InputToken::Char('\u{10FFFF}')), Some(4));
    assert_eq!(automaton.edge(0, InputToken::Method(Method::Put)), None);
}

#[test]
fn token_keys() {
    assert_eq!(InputToken::Char('\0').to_key(), 0);
    assert_eq!(InputToken::Char('/').to_key(), 47);
    assert_eq!(InputToken::Char('\u{10FFFF}').to_key(), 0x10FFFF);
    assert_eq!(InputToken::Method(Method::Get).to_key(), 0x110000);
    assert_eq!(InputToken::Method(Method::Trace).to_key(), 0x110008);
}

#[test]
fn set_payload_overwrites() {
    let mut automaton = Machine::new();
    automaton.set_payload(0, 5);
    assert_eq!(automaton.payload(0), Some(&5));
    automaton.set_payload(0, 6);
    assert_eq!(automaton.payload(0), Some(&6));
}

#[test]
fn set_loop_overwrites() {
    let mut automaton = Machine::new();
    automaton.set_loop(0, capture("a"));
    assert_eq!(automaton.transition(0).map(|c| c.name.as_str()), Some("a"));
    automaton.set_loop(0, capture("b"));
    assert_eq!(automaton.transition(0).map(|c| c.name.as_str()), Some("b"));
}

#[test]
fn step_prefers_the_edge_then_loops_then_fails() {
    let mut automaton = Machine::new();
    let next = automaton.get_or_create_edge(0, InputToken::Char('/'));
    automaton.set_loop(0, capture("x"));
    let mut state = AutomatonState::new();
    assert_eq!(automaton.step(0, InputToken::Char('a'), &mut state), Some(0));
    assert_eq!(automaton.step(0, InputToken::Char('b'), &mut state), Some(0));
    assert_eq!(state.get("x").map(|s| s.as_str()), Some("ab"));
    assert_eq!(automaton.step(0, InputToken::Char('/'), &mut state), Some(next));
    assert_eq!(state.get("x").map(|s| s.as_str()), Some("ab"));
    assert_eq!(automaton.step(next, InputToken::Char('a'), &mut state), None);
    assert_eq!(state.get("x").map(|s| s.as_str()), Some("ab"));
    assert_eq!(state.len(), 1);
}

#[test]
fn loop_on_a_method_token_appends_nothing() {
    let mut automaton = Machine::new();
    automaton.set_loop(0, capture("x"));
    let mut state = AutomatonState::new();
    assert_eq!(automaton.step(0, InputToken::Method(Method::Get), &mut state), Some(0));
    assert_eq!(state.get("x").map(|s| s.as_str()), Some(""));
    assert_eq!(automaton.step(0, InputToken::Char('a'), &mut state), Some(0));
    assert_eq!(automaton.step(0, InputToken::Method(Method::Get), &mut state), Some(0));
    assert_eq!(state.get("x").map(|s| s.as_str()), Some("a"));
}

#[test]
fn cursor_builds_and_walks() {
    let mut cursor: Iter<AutomatonState, InputToken, Capture, u32> = Machine::new().iter();
    assert_eq!(cursor.index(), 0);
    assert!(cursor.accumulator().is_empty());
    cursor.next_or_create_new_node(InputToken::Char('a'));
    assert_eq!(cursor.index(), 1);
    cursor.set_loop(capture("p"));
    cursor.next_or_create_new_node(InputToken::Char('/'));
    assert_eq!(cursor.index(), 2);
    cursor.change_node(7);
    assert_eq!(cursor.automaton_ref().payload(2), Some(&7));
    let automaton = cursor.into_automaton();
    assert_eq!(automaton.len(), 3);

    let mut cursor: Iter<AutomatonState, InputToken, Capture, u32> = automaton.iter();
    assert!(!cursor.next(InputToken::Char('b')));
    assert_eq!(cursor.index(), 0);
    assert!(cursor.next(InputToken::Char('a')));
    assert_eq!(cursor.index(), 1);
    assert!(cursor.next(InputToken::Char('x')));
    assert!(cursor.next(InputToken::Char('y')));
    assert_eq!(cursor.index(), 1);
    assert_eq!(cursor.accumulator().get("p").map(|s| s.as_str()), Some("xy"));
    assert!(cursor.next(InputToken::Char('/')));
    assert_eq!(cursor.index(), 2);
    assert!(!cursor.next(InputToken::Char('/')));
    assert_eq!(cursor.index(), 2);
    let automaton = cursor.into_automaton();
    assert_eq!(automaton.len(), 3);
}

#[test]
fn state_records_under_names() {
    let mut state = AutomatonState::new();
    assert!(state.is_empty());
    assert_eq!(state.len(), 0);
    assert_eq!(state.get("a"), None);
    let a = "a".to_string();
    let b = "b".to_string();
    state.record(&a, InputToken::Char('1'));
    state.record(&b, InputToken::Char('2'));
    state.record(&a, InputToken::Char('3'));
    state.record(&b, InputToken::Method(Method::Get));
    assert!(!state.is_empty());
    assert_eq!(state.len(), 2);
    assert_eq!(state.get("a").map(|s| s.as_str()), Some("13"));
    assert_eq!(state.get("b").map(|s| s.as_str()), Some("2"));
    assert_eq!(state.get(""), None);
    let mut found = state.into_pairs();
    found.sort();
    assert_eq!(
        found,
        vec![("a".to_string(), "13".to_string()), ("b".to_string(), "2".to_string())]
    );
}

#[test]
fn default_state_is_empty() {
    let state = AutomatonState::default();
    assert!(state.is_empty());
}

#[test]
fn method_names_and_numbers() {
    let names = ["GET", "POST", "PUT", "DELETE", "HEAD", "OPTIONS", "CONNECT", "PATCH", "TRACE"];
    let methods = [
        Method::Get,
        Method::Post,
        Method::Put,
        Method::Delete,
        Method::Head,
        Method::Options,
        Method::Connect,
        Method::Patch,
        Method::Trace,
    ];
    for (i, method) in methods.iter().enumerate() {
        assert_eq!(method.name(), names[i]);
        assert_eq!(method.to_ordinal(), i as u64);
    }
}
