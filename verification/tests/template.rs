use automaton_router::router::error::RouterBuilderError;
use automaton_router::router::template::{
    find_duplicate_names, parse_template, ScanState, Segment,
};

fn shape(segments: &[Segment]) -> Vec<String> {
    segments
        .iter()
        .map(|segment| match segment {
            Segment::Literal(c) => c.to_string(),
            Segment::Parameter(name) => format!("<{}>", name),
        })
        .collect()
}

#[test]
fn literal_template_is_one_segment_a_character() {
    let segments = parse_template("/roles").unwrap();
    assert_eq!(shape(&segments), vec!["/", "r", "o", "l", "e", "s"]);
}

#[test]
fn parameter_is_one_segment() {
    let segments = parse_template("/roles/<id>").unwrap();
    assert_eq!(shape(&segments), vec!["/", "r", "o", "l", "e", "s", "/", "<id>"]);
    assert!(matches!(&segments[7], Segment::Parameter(name) if name == "id"));
}

#[test]
fn empty_template_has_no_segment() {
    assert!(parse_template("").unwrap().is_empty());
}

#[test]
fn empty_name_is_a_parameter() {
    let segments = parse_template("<>").unwrap();
    assert_eq!(segments.len(), 1);
    assert!(matches!(&segments[0], Segment::Parameter(name) if name.is_empty()));
}

#[test]
fn adjacent_parameters() {
    let segments = parse_template("<a><b>c").unwrap();
    assert_eq!(shape(&segments), vec!["<a>", "<b>", "c"]);
}

#[test]
fn name_keeps_every_character_but_the_brackets() {
    let segments = parse_template("<a/b c>").unwrap();
    assert!(matches!(&segments[0], Segment::Parameter(name) if name == "a/b c"));
}

#[test]
fn unbalanced_brackets_are_refused() {
    for template in ["<", ">", "a>", "<a", "<<a>", "<a>>", "/x/<y>/<z", "<a<b>>"] {
        assert_eq!(parse_template(template).err(), Some(RouterBuilderError::InvalidPath));
    }
}

#[test]
fn scanner_steps() {
    let state = ScanState::new();
    assert!(state.is_final());
    let (state, done) = state.feed('a').unwrap();
    assert!(matches!(state, ScanState::Literal));
    assert!(matches!(done, Some(Segment::Literal('a'))));
    let (state, done) = state.feed('<').unwrap();
    assert!(
        matches!(&state, ScanState::CapturingParameter { name_buffer } if name_buffer.is_empty())
    );
    assert!(done.is_none());
    assert!(!state.is_final());
    let (state, done) = state.feed('i').unwrap();
    assert!(done.is_none());
    let (state, done) = state.feed('d').unwrap();
    assert!(matches!(&state, ScanState::CapturingParameter { name_buffer } if name_buffer == "id"));
    assert!(done.is_none());
    let (state, done) = state.feed('>').unwrap();
    assert!(matches!(state, ScanState::Literal));
    assert!(matches!(done, Some(Segment::Parameter(name)) if name == "id"));
}

#[test]
fn scanner_refuses_misplaced_brackets() {
    assert_eq!(ScanState::new().feed('>').err(), Some(RouterBuilderError::InvalidPath));
    let (inside, _) = ScanState::new().feed('<').unwrap();
    assert_eq!(inside.feed('<').err(), Some(RouterBuilderError::InvalidPath));
}

#[test]
fn duplicate_names_are_found() {
    assert!(!find_duplicate_names(&parse_template("/<a>/<b>").unwrap()));
    assert!(find_duplicate_names(&parse_template("/<a>/<b>/<a>").unwrap()));
    assert!(find_duplicate_names(&parse_template("<><>").unwrap()));
    assert!(!find_duplicate_names(&parse_template("aa").unwrap()));
    assert!(!find_duplicate_names(&parse_template("").unwrap()));
}

fn written(segments: &[Segment]) -> String {
    shape(segments).concat()
}

#[test]
fn a_template_is_the_text_of_its_segments() {
    for template in ["", "/", "/roles", "/roles/<id>", "<a><b>", "/a/<x y>/b/<>", "/rôles/<nom>"] {
        assert_eq!(written(&parse_template(template).unwrap()), template);
    }
}
