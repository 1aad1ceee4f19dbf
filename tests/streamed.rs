use yam::{build, Anchor, Editing, EditingError, Event, Folded};

fn doc(body: Vec<Event>) -> Vec<Event> {
    let mut v = vec![Event::StreamStart, Event::DocumentStart];
    v.extend(body);
    v.push(Event::DocumentEnd);
    v.push(Event::StreamEnd);
    v
}

fn scalar(s: &str) -> Event {
    Event::Scalar(s.to_string(), 0)
}

fn all_text(f: &Folded) -> String {
    let mut it = f.iter();
    let mut out = String::new();
    while let Some(s) = it.next() {
        out.push_str(&s);
    }
    out
}

#[test]
fn sequence_separators() {
    let f = build(&doc(vec![
        Event::SequenceStart(0),
        scalar("1"),
        scalar("2"),
        scalar("3"),
        Event::SequenceEnd,
    ]))
    .unwrap();
    assert_eq!(all_text(&f), "[\"1\",\"2\",\"3\"]");
}

#[test]
fn mapping_separators() {
    let f = build(&doc(vec![
        Event::MappingStart(0),
        scalar("a"),
        scalar("b"),
        scalar("c"),
        scalar("d"),
        Event::MappingEnd,
    ]))
    .unwrap();
    assert_eq!(all_text(&f), "{\"a\":\"b\",\"c\":\"d\"}");
}

#[test]
fn nested_empty_containers() {
    let f = build(&doc(vec![
        Event::SequenceStart(0),
        Event::SequenceStart(0),
        Event::SequenceEnd,
        Event::MappingStart(0),
        Event::MappingEnd,
        Event::MappingStart(0),
        scalar("k"),
        Event::SequenceStart(0),
        Event::SequenceEnd,
        scalar("m"),
        Event::MappingStart(0),
        Event::MappingEnd,
        Event::MappingEnd,
        Event::SequenceEnd,
    ]))
    .unwrap();
    assert_eq!(all_text(&f), "[[],{},{\"k\":[],\"m\":{}}]");
}

#[test]
fn alias_is_expanded_in_place() {
    let f = build(&doc(vec![
        Event::MappingStart(0),
        scalar("base"),
        Event::SequenceStart(1),
        scalar("x"),
        Event::Scalar("y".to_string(), 2),
        Event::SequenceEnd,
        scalar("copy"),
        Event::Alias(1),
        scalar("again"),
        Event::Alias(2),
        Event::MappingEnd,
    ]))
    .unwrap();
    assert_eq!(
        all_text(&f),
        "{\"base\":[\"x\",\"y\"],\"copy\":[\"x\",\"y\"],\"again\":\"y\"}"
    );
}

#[test]
fn chunks_alternate_with_references() {
    let f = build(&doc(vec![
        Event::SequenceStart(0),
        Event::SequenceStart(1),
        scalar("x"),
        Event::SequenceEnd,
        Event::Alias(1),
        Event::SequenceEnd,
    ]))
    .unwrap();
    let chunks = f.render(100);
    assert_eq!(chunks, vec!["[[\"x\"],", "[\"x\"]", "]"]);
    assert_eq!(f.render(2), vec!["[[\"x\"],", "[\"x\"]"]);
    assert!(f.render(0).is_empty());
}

#[test]
fn top_level_scalar_is_the_document() {
    let f = build(&doc(vec![scalar("only")])).unwrap();
    assert_eq!(all_text(&f), "\"only\"");
}

#[test]
fn self_reference_is_rejected() {
    let r = build(&doc(vec![
        Event::SequenceStart(1),
        scalar("a"),
        Event::Alias(1),
        Event::SequenceEnd,
    ]));
    assert_eq!(r.unwrap_err(), EditingError::RecursiveRef);
}

#[test]
fn reference_to_open_ancestor_is_rejected() {
    let r = build(&doc(vec![
        Event::MappingStart(3),
        scalar("k"),
        Event::SequenceStart(4),
        Event::SequenceStart(5),
        Event::Alias(3),
        Event::SequenceEnd,
        Event::SequenceEnd,
        Event::MappingEnd,
    ]));
    assert_eq!(r.unwrap_err(), EditingError::RecursiveRef);
}

#[test]
fn failure_is_final() {
    let mut e = Editing::new();
    e.on_event(&Event::SequenceStart(1));
    e.on_event(&Event::Alias(1));
    e.on_event(&Event::SequenceEnd);
    e.on_event(&Event::SequenceStart(2));
    e.on_event(&Event::SequenceEnd);
    assert_eq!(Folded::try_from(e).unwrap_err(), EditingError::RecursiveRef);
}

#[test]
fn empty_stream_is_malformed() {
    assert_eq!(build(&vec![]).unwrap_err(), EditingError::Syntax);
    assert_eq!(build(&doc(vec![])).unwrap_err(), EditingError::Syntax);
}

#[test]
fn unclosed_node_is_malformed() {
    let r = build(&doc(vec![Event::SequenceStart(0), scalar("a")]));
    assert_eq!(r.unwrap_err(), EditingError::Syntax);
}

#[test]
fn top_level_alias_is_malformed() {
    let r = build(&doc(vec![Event::Alias(1)]));
    assert_eq!(r.unwrap_err(), EditingError::Syntax);
}

#[test]
fn error_messages() {
    assert_eq!(EditingError::Syntax.message(), "Unexpected end of document");
    assert_eq!(
        EditingError::RecursiveRef.message(),
        "Recursive reference has been found"
    );
}

// Each level is a sequence that aliases the level below it twice, so the
// output doubles with each level while the events grow by a constant.
fn bomb(depth: usize) -> Vec<Event> {
    let mut body = vec![Event::SequenceStart(1), scalar("lol"), Event::SequenceEnd];
    body.insert(0, Event::SequenceStart(0));
    for level in 2..=depth {
        body.push(Event::SequenceStart(level));
        body.push(Event::Alias(level - 1));
        body.push(Event::Alias(level - 1));
        body.push(Event::SequenceEnd);
    }
    body.push(Event::SequenceEnd);
    doc(body)
}

#[test]
fn deep_sharing_builds_quickly() {
    let f = build(&bomb(48)).unwrap();
    let first = f.render(4);
    assert_eq!(first.len(), 4);
    assert_eq!(first[0], "[[\"lol\"],[");
    assert_eq!(first[1], "[\"lol\"]");
}

#[test]
fn small_bomb_expands_fully() {
    let f = build(&bomb(3)).unwrap();
    assert_eq!(
        all_text(&f),
        "[[\"lol\"],[[\"lol\"],[\"lol\"]],[[[\"lol\"],[\"lol\"]],[[\"lol\"],[\"lol\"]]]]"
    );
}

#[test]
fn partial_traversal_leaves_snapshot_alone() {
    let f = build(&bomb(4)).unwrap();
    let whole = all_text(&f);
    let mut first = f.iter();
    let chunk = first.next().unwrap();
    assert!(whole.starts_with(&chunk));
    assert_eq!(all_text(&f), whole);
    let copy = f.clone();
    assert_eq!(all_text(&copy), whole);
    let second = first.next().unwrap();
    assert!(whole[chunk.len()..].starts_with(&second));
}

#[test]
fn anchors_compare_by_number() {
    assert_eq!(Anchor(3), Anchor(3));
    assert!(Anchor(2) < Anchor(3));
}
