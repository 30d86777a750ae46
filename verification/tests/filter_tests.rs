use wminspect::error::WmError;
use wminspect::text::HexedVec;
use wminspect::filter::{eval_rule, filter_grammar, Action, ActionFuncPair, Filter, FilterRule};
use wminspect::sheets::SheetFormat;
use wminspect::state::WindowsLayout;
use wminspect::types::{Attributes, Geometry, MapState, Window};

fn window(id: u32, name: &str, map_state: MapState, or: bool, geom: Geometry) -> Window {
    Window {
        id,
        name: name.to_string(),
        attrs: Attributes { override_redirect: or, map_state },
        geom,
        valid: true,
    }
}

fn plain_window(id: u32, name: &str) -> Window {
    window(
        id,
        name,
        MapState::Viewable,
        false,
        Geometry { x: 0, y: 0, width: 100, height: 100 },
    )
}

#[test]
fn test_whole() {
    let mut filter = Filter::new();
    filter.extend_with("name = dde*;", SheetFormat::Plain);
    assert_eq!(filter.rules.len(), 1);
}

#[test]
fn test_empty_filter_accepts_and_pins_nothing() {
    // The empty filter accepts every window (vacuous conjunction) and pins
    // none (vacuous disjunction).
    let filter = Filter::new();
    let w = plain_window(1, "anything");
    assert!(filter.apply_to(&w));
    assert!(!filter.is_pinned(&w));
}

#[test]
fn test_filter_and_pin_are_independent() {
    // One filter-out rule and one independent pin rule: a window can satisfy
    // neither, either, or both.
    let filter = Filter::parse("name = keep*; geom.width > 400: pin");
    assert_eq!(filter.rules.len(), 2);

    let neither = window(
        1,
        "other",
        MapState::Viewable,
        false,
        Geometry { x: 0, y: 0, width: 100, height: 100 },
    );
    assert!(!filter.apply_to(&neither));
    assert!(!filter.is_pinned(&neither));

    let only_pass = window(
        2,
        "keep-me",
        MapState::Viewable,
        false,
        Geometry { x: 0, y: 0, width: 100, height: 100 },
    );
    assert!(filter.apply_to(&only_pass));
    assert!(!filter.is_pinned(&only_pass));

    let only_pin = window(
        3,
        "other",
        MapState::Viewable,
        false,
        Geometry { x: 0, y: 0, width: 800, height: 100 },
    );
    assert!(!filter.apply_to(&only_pin));
    assert!(filter.is_pinned(&only_pin));

    let both = window(
        4,
        "keep-me",
        MapState::Viewable,
        false,
        Geometry { x: 0, y: 0, width: 800, height: 100 },
    );
    assert!(filter.apply_to(&both));
    assert!(filter.is_pinned(&both));
}

#[test]
fn test_empty_all_and_any() {
    // An empty conjunction is true for every window; an empty disjunction is
    // false for every window.
    let w = plain_window(5, "w");
    assert!(eval_rule(&FilterRule::All(Vec::new()), &w));
    assert!(!eval_rule(&FilterRule::Any(Vec::new()), &w));
}

#[test]
fn test_double_negation() {
    let w = plain_window(6, "dde-osd");
    let filter = Filter::parse("not(not(name = dde*))");
    let direct = Filter::parse("name = dde*");
    assert_eq!(filter.apply_to(&w), direct.apply_to(&w));
    let other = plain_window(7, "unrelated");
    assert_eq!(filter.apply_to(&other), direct.apply_to(&other));
}

#[test]
fn test_eval_name_and_id_rules() {
    let w = window(
        0x8a0001f,
        "dde-osd",
        MapState::Viewable,
        true,
        Geometry { x: 10, y: -5, width: 640, height: 480 },
    );
    let f = Filter::parse("name = dde*");
    assert!(f.apply_to(&w));
    let f = Filter::parse("name <> dde*");
    assert!(!f.apply_to(&w));
    // A wildcard id pattern matches the hexadecimal form.
    let f = Filter::parse("id = 0x8a000??");
    assert!(f.apply_to(&w));
    // A plain id is compared for exact equality, hexadecimal or decimal.
    let f = Filter::parse("id = 0x8a0001f");
    assert!(f.apply_to(&w));
    let f = Filter::parse("id = 144703519");
    assert!(f.apply_to(&w));
    let f = Filter::parse("id = 7");
    assert!(!f.apply_to(&w));
}

#[test]
fn test_eval_attr_and_geom_rules() {
    let w = window(
        9,
        "term",
        MapState::Unmapped,
        true,
        Geometry { x: -3, y: 7, width: 500, height: 300 },
    );
    assert!(Filter::parse("attrs.map_state = unmapped").apply_to(&w));
    assert!(!Filter::parse("attrs.map_state = viewable").apply_to(&w));
    assert!(Filter::parse("attrs.map_state <> viewable").apply_to(&w));
    assert!(Filter::parse("attrs.override_redirect = true").apply_to(&w));
    assert!(!Filter::parse("attrs.override_redirect = 0").apply_to(&w));
    assert!(Filter::parse("geom.x < 0").apply_to(&w));
    assert!(Filter::parse("geom.width >= 500").apply_to(&w));
    assert!(!Filter::parse("geom.height > 300").apply_to(&w));
    assert!(Filter::parse("geom.y <= 7").apply_to(&w));
}

#[test]
fn test_short_circuit_composition() {
    let w = window(
        10,
        "editor",
        MapState::Viewable,
        false,
        Geometry { x: 0, y: 0, width: 800, height: 600 },
    );
    assert!(Filter::parse("any(name = nothere, geom.width > 400)").apply_to(&w));
    assert!(!Filter::parse("all(name = editor, geom.width < 400)").apply_to(&w));
    assert!(Filter::parse("all(name = editor, geom.width > 400)").apply_to(&w));
}

#[test]
fn test_clients_only_and_adhoc_are_true_here() {
    let w = plain_window(11, "client");
    assert!(eval_rule(&FilterRule::ClientsOnly, &w));
    assert!(eval_rule(&FilterRule::Adhoc, &w));
    let f = Filter::parse("clients");
    assert_eq!(f.rules.len(), 1);
    assert!(f.apply_to(&w));
}

#[test]
fn test_add_live_rule() {
    let mut f = Filter::new();
    f.add_live_rule(ActionFuncPair { action: Action::FilterOut, rule: FilterRule::Adhoc });
    assert_eq!(f.rules.len(), 1);
    let w = plain_window(12, "x");
    assert!(f.apply_to(&w));
}

#[test]
fn test_malformed_source_loads_nothing() {
    // A failed load is "no additional rules added": it never corrupts the
    // rules already loaded.
    let mut f = Filter::parse("name = keep*");
    assert_eq!(f.rules.len(), 1);
    let loaded = f.extend_with("invalid syntax here", SheetFormat::Plain);
    assert!(!loaded);
    assert_eq!(f.rules.len(), 1);
}

#[test]
fn test_id_only_accepts_equality() {
    // An id comparison with an operator other than `=` is rejected at
    // compile time: that statement is dropped, the rest are kept.
    let f = Filter::parse("id <> 3; name = keep*");
    assert_eq!(f.rules.len(), 1);
}

#[test]
fn test_grammar_help_text() {
    let g = filter_grammar();
    assert!(g.contains("grammar:"));
    assert!(g.contains("attrs.(map_state|override_redirect)"));
    assert!(g.contains("geom.(x|y|width|height)"));
}

#[test]
fn test_error_messages() {
    assert_eq!(
        WmError::FilterParsing("bad".to_string()).message(),
        "Filter parsing error: bad"
    );
    assert_eq!(WmError::WindowNotFound(0x1f).message(), "Window not found: 0x1f");
    assert_eq!(WmError::Io("gone".to_string()).message(), "IO error: gone");
}

#[test]
fn test_windows_layout_bookkeeping() {
    let mut layout = WindowsLayout::new();
    layout.insert_window(plain_window(21, "a"));
    layout.insert_window(plain_window(22, "b"));
    layout.stack_view = vec![21, 22];
    layout.filtered_view = vec![21, 22];
    assert_eq!(layout.window_count(), 2);
    assert!(layout.get_window(21).is_some());
    assert!(layout.is_window_in_filtered_view(22));
    layout.pin_window(21);
    assert!(layout.is_window_pinned(21));
    layout.toggle_pin(21);
    assert!(!layout.is_window_pinned(21));
    layout.remove_window(21);
    assert_eq!(layout.window_count(), 1);
    assert!(!layout.is_window_in_filtered_view(21));
    assert_eq!(layout.stack_view, vec![22]);
    layout.clear();
    assert_eq!(layout.window_count(), 0);
}

#[test]
fn test_hexed_vec_text() {
    let ids: Vec<u32> = vec![0x12, 0, 255];
    assert_eq!(HexedVec(&ids).text(), "[0x12, 0x0, 0xff]");
    let empty: Vec<u32> = Vec::new();
    assert_eq!(HexedVec(&empty).text(), "[]");
}
