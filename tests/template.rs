use yam::template::{StringHole, TemplateItem};
use yam::Anchor;

fn text(s: &str) -> TemplateItem {
    TemplateItem::Text(s.to_string())
}

#[test]
fn fold_coalesces_literals_around_references() {
    let mut h = StringHole::new();
    h.push(TemplateItem::Char('['));
    h.push(text("\"a\""));
    h.push(TemplateItem::Ref(Anchor(2)));
    h.push(TemplateItem::Ref(Anchor(3)));
    h.push(TemplateItem::Char(']'));
    let f = h.fold();
    assert_eq!(f.len(), 5);
    assert_eq!(f.get(0), &Ok("[\"a\",".to_string()));
    assert_eq!(f.get(1), &Err(Anchor(2)));
    assert_eq!(f.get(2), &Ok(",".to_string()));
    assert_eq!(f.get(3), &Err(Anchor(3)));
    assert_eq!(f.get(4), &Ok("]".to_string()));
}

#[test]
fn fold_starts_with_empty_literal_before_leading_reference() {
    let mut h = StringHole::new();
    h.push(TemplateItem::Ref(Anchor(7)));
    let f = h.fold();
    assert_eq!(f.len(), 2);
    assert_eq!(f.get(0), &Ok(String::new()));
    assert_eq!(f.get(1), &Err(Anchor(7)));
}

#[test]
fn singleton_folds_to_its_text() {
    let f = StringHole::singleton(text("\"x\"")).fold();
    assert_eq!(f.len(), 1);
    assert_eq!(f.get(0), &Ok("\"x\"".to_string()));
}

#[test]
fn mapping_alternates_colon_and_comma() {
    let mut h = StringHole::new();
    h.push(TemplateItem::Char('{'));
    h.push(text("\"k\""));
    let mut child = StringHole::new();
    child.push(TemplateItem::Char('['));
    child.push(TemplateItem::Char(']'));
    h.append(&mut child);
    h.push(text("\"k2\""));
    h.push(text("\"v2\""));
    h.push(TemplateItem::Char('}'));
    let f = h.fold();
    assert_eq!(f.len(), 1);
    assert_eq!(f.get(0), &Ok("{\"k\":[],\"k2\":\"v2\"}".to_string()));
}
