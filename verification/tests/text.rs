use mq_text::{Color, ColoredStr, Component};

fn red() -> Color {
    Color::from_rgba(255, 0, 0, 255)
}

fn blue() -> Color {
    Color::from_rgba(0, 0, 255, 255)
}

#[test]
fn markers_color_following_characters_in_order() {
    // Components [Color(red), Char('a'), Char('b'), Color(blue), Char('c')]
    // yield exactly [('a', red), ('b', red), ('c', blue)] in order.
    let s = ColoredStr::new(vec![
        Component::Color(red()),
        Component::Char('a'),
        Component::Char('b'),
        Component::Color(blue()),
        Component::Char('c'),
    ]);
    let pairs = s.pairs();
    assert_eq!(
        pairs,
        vec![('a', Some(red())), ('b', Some(red())), ('c', Some(blue()))]
    );
}

#[test]
fn iterator_yields_the_pairs_in_order() {
    let s = ColoredStr::new(vec![
        Component::Color(red()),
        Component::Char('a'),
        Component::Char('b'),
        Component::Color(blue()),
        Component::Char('c'),
    ]);
    let mut it = s.iter();
    assert_eq!(it.next(), Some(('a', Some(red()))));
    assert_eq!(it.next(), Some(('b', Some(red()))));
    assert_eq!(it.next(), Some(('c', Some(blue()))));
    assert_eq!(it.next(), None);
    assert_eq!(it.next(), None);
}

#[test]
fn characters_before_any_marker_have_no_color() {
    let s = ColoredStr::new(vec![
        Component::Char('x'),
        Component::from("yz"),
        Component::Color(red()),
        Component::from("w"),
    ]);
    assert_eq!(
        s.pairs(),
        vec![('x', None), ('y', None), ('z', None), ('w', Some(red()))]
    );
}

#[test]
fn string_runs_flatten_into_single_characters() {
    let s = ColoredStr::new(vec![Component::from("abc"), Component::from('d')]);
    let pairs = s.pairs();
    let chars: Vec<char> = pairs.iter().map(|p| p.0).collect();
    assert_eq!(chars, vec!['a', 'b', 'c', 'd']);
    assert!(pairs.iter().all(|p| p.1.is_none()));
}

#[test]
fn empty_and_marker_only_runs_yield_nothing() {
    assert_eq!(ColoredStr::new(vec![]).pairs(), vec![]);
    let only_marker = ColoredStr::new(vec![Component::Color(red()), Component::Color(blue())]);
    assert_eq!(only_marker.pairs(), vec![]);
    assert_eq!(only_marker.iter().next(), None);
}

#[test]
fn later_marker_supersedes_earlier() {
    let s = ColoredStr::new(vec![
        Component::Color(red()),
        Component::Color(blue()),
        Component::Char('a'),
    ]);
    assert_eq!(s.pairs(), vec![('a', Some(blue()))]);
}

#[test]
fn component_conversions() {
    assert!(matches!(Component::from('q'), Component::Char('q')));
    assert!(matches!(Component::from(red()), Component::Color(_)));
    match Component::from("hi") {
        Component::Str(s) => assert_eq!(s, "hi"),
        _ => panic!("a string slice must become a run"),
    }
}
