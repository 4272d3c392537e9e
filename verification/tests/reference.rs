//! The router against a matcher that reads the table of routes directly.

use automaton_router::router::error::RouterBuilderError;
use automaton_router::router::method::Method;
use automaton_router::router::{compile, MatchOutcome, Route};

#[derive(Clone, Debug, PartialEq)]
enum Piece {
    Literal(char),
    Parameter(String),
}

#[derive(Clone, Copy, Debug, PartialEq)]
enum Token {
    Char(char),
    Method(Method),
}

struct Entry {
    method: Method,
    pieces: Vec<Piece>,
    handler: usize,
}

fn read(template: &str) -> Option<Vec<Piece>> {
    let mut pieces = Vec::new();
    let mut name: Option<String> = None;
    for c in template.chars() {
        name = match (name, c) {
            (None, '<') => Some(String::new()),
            (None, '>') => return None,
            (None, c) => {
                pieces.push(Piece::Literal(c));
                None
            }
            (Some(name), '>') => {
                pieces.push(Piece::Parameter(name));
                None
            }
            (Some(_), '<') => return None,
            (Some(mut name), c) => {
                name.push(c);
                Some(name)
            }
        };
    }
    match name {
        None => Some(pieces),
        Some(_) => None,
    }
}

fn tokens(entry: &Entry) -> Vec<Token> {
    let mut tokens: Vec<Token> = entry
        .pieces
        .iter()
        .map(|piece| match piece {
            Piece::Literal(c) => Token::Char(*c),
            Piece::Parameter(_) => Token::Char('/'),
        })
        .collect();
    tokens.push(Token::Method(entry.method));
    tokens
}

fn has_path(table: &[Entry], path: &[Token]) -> bool {
    table.iter().any(|entry| tokens(entry).starts_with(path))
}

fn capture_in(pieces: &[Piece], at: &[Token]) -> Option<String> {
    let own: Vec<Token> = pieces
        .iter()
        .map(|piece| match piece {
            Piece::Literal(c) => Token::Char(*c),
            Piece::Parameter(_) => Token::Char('/'),
        })
        .collect();
    match pieces.get(at.len()) {
        Some(Piece::Parameter(name)) if own[..at.len()] == *at => Some(name.clone()),
        _ => None,
    }
}

fn capture_at(table: &[Entry], at: &[Token]) -> Option<String> {
    table.iter().rev().find_map(|entry| capture_in(&entry.pieces, at))
}

fn handler_at(table: &[Entry], path: &[Token]) -> Option<usize> {
    table.iter().rev().find(|entry| tokens(entry) == path).map(|entry| entry.handler)
}

fn fault(table: &[Entry], pieces: &[Piece]) -> Option<RouterBuilderError> {
    let names: Vec<&String> = pieces
        .iter()
        .filter_map(|piece| match piece {
            Piece::Parameter(name) => Some(name),
            Piece::Literal(_) => None,
        })
        .collect();
    for (i, name) in names.iter().enumerate() {
        if names[..i].contains(name) {
            return Some(RouterBuilderError::DuplicateParameter);
        }
    }
    let entry = Entry { method: Method::Get, pieces: pieces.to_vec(), handler: 0 };
    let own = tokens(&entry);
    for (k, piece) in pieces.iter().enumerate() {
        if let Piece::Parameter(name) = piece {
            if let Some(other) = capture_at(table, &own[..k]) {
                if other != *name {
                    return Some(RouterBuilderError::ConflictingParameter);
                }
            }
        }
    }
    None
}

fn table_of(routes: &[(Method, String)]) -> Result<Vec<Entry>, RouterBuilderError> {
    let mut table = Vec::new();
    for (handler, (method, template)) in routes.iter().enumerate() {
        let pieces = match read(template) {
            Some(pieces) => pieces,
            None => return Err(RouterBuilderError::InvalidPath),
        };
        if let Some(e) = fault(&table, &pieces) {
            return Err(e);
        }
        table.push(Entry { method: *method, pieces, handler });
    }
    Ok(table)
}

fn expected(
    table: &[Entry],
    method: Method,
    path: &str,
) -> Option<(usize, Vec<(String, String)>)> {
    let mut at: Vec<Token> = Vec::new();
    let mut params: Vec<(String, String)> = Vec::new();
    let request = path.chars().map(Token::Char).chain(std::iter::once(Token::Method(method)));
    for token in request {
        let mut longer = at.clone();
        longer.push(token);
        if has_path(table, &longer) {
            at = longer;
        } else if let Some(name) = capture_at(table, &at) {
            if !params.iter().any(|(known, _)| *known == name) {
                params.push((name.clone(), String::new()));
            }
            if let Token::Char(c) = token {
                let entry = params.iter_mut().find(|(known, _)| *known == name).unwrap();
                entry.1.push(c);
            }
        } else {
            return None;
        }
    }
    params.sort();
    handler_at(table, &at).map(|handler| (handler, params))
}

fn nodes(table: &[Entry]) -> usize {
    let mut starts: Vec<Vec<Token>> = vec![Vec::new()];
    for entry in table {
        let own = tokens(entry);
        for k in 1..=own.len() {
            if !starts.contains(&own[..k].to_vec()) {
                starts.push(own[..k].to_vec());
            }
        }
    }
    starts.len()
}

struct Dice(u64);

impl Dice {
    fn roll(&mut self, sides: usize) -> usize {
        self.0 = self.0.wrapping_mul(6364136223846793005).wrapping_add(1442695040888963407);
        ((self.0 >> 33) as usize) % sides
    }

    fn text(&mut self, parts: &[&str], longest: usize) -> String {
        let n = self.roll(longest + 1);
        (0..n).map(|_| parts[self.roll(parts.len())]).collect()
    }
}

const METHODS: [Method; 3] = [Method::Get, Method::Post, Method::Delete];

fn agree(seed: u64, template_parts: &[&str], path_parts: &[&str]) -> (usize, usize) {
    let mut dice = Dice(seed);
    let mut built = 0;
    let mut matched = 0;
    for _ in 0..300 {
        let count = dice.roll(5);
        let routes: Vec<(Method, String)> = (0..count)
            .map(|_| (METHODS[dice.roll(METHODS.len())], dice.text(template_parts, 5)))
            .collect();
        let registered: Vec<(Route, usize)> = routes
            .iter()
            .enumerate()
            .map(|(handler, (method, template))| (Route::from(*method, template), handler))
            .collect();
        let table = table_of(&routes);
        let router = match (compile(registered), &table) {
            (Ok(router), Ok(_)) => router,
            (Err(found), Err(wanted)) => {
                assert_eq!(found, *wanted, "{:?}", routes);
                continue;
            }
            (found, _) => panic!("{:?}: {:?} against {:?}", routes, found.err(), table.err()),
        };
        let table = table.unwrap();
        built += 1;
        assert_eq!(router.node_count(), nodes(&table), "{:?}", routes);
        for _ in 0..40 {
            let method = METHODS[dice.roll(METHODS.len())];
            let path = dice.text(path_parts, 7);
            let found = match router.route(&method, &path) {
                MatchOutcome::Matched { handler, params } => {
                    let mut params = params.into_pairs();
                    params.sort();
                    Some((*handler, params))
                }
                MatchOutcome::NotFound => None,
            };
            if found.is_some() {
                matched += 1;
            }
            let wanted = expected(&table, method, &path);
            assert_eq!(found, wanted, "{:?} {:?} {}", routes, method, path);
        }
    }
    (built, matched)
}

#[test]
fn router_agrees_with_the_table_on_short_alphabet() {
    let (built, matched) = agree(1, &["a", "/", "<x>", "<y>"], &["a", "/"]);
    assert!(built > 100);
    assert!(matched > 100);
}

#[test]
fn router_agrees_with_the_table_on_longer_alphabet() {
    let (built, matched) = agree(7, &["a", "b", "/", "<x>", "<y>", "<>"], &["a", "b", "c", "/"]);
    assert!(built > 100);
    assert!(matched > 20);
}

#[test]
fn router_agrees_with_the_table_on_malformed_templates() {
    let (built, _) = agree(11, &["a", "/", "<", ">", "x"], &["a", "/", "x"]);
    assert!(built > 20);
}
