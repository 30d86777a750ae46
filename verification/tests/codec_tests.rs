use wminspect::codec::{
    decode_items_binary, decode_items_text, encode_items_binary, encode_items_text,
};
use wminspect::filter::{parse_rule, scan_tokens, FilterItem};
use wminspect::sheets::SheetFormat;
use wminspect::filter::Filter;

fn parse_items(src: &str) -> Vec<FilterItem> {
    let mut tokens = scan_tokens(src);
    parse_rule(&mut tokens).unwrap()
}

#[test]
fn test_text_round_trip_simple() {
    // decode(encode_text(ast)) == ast for a parser-produced AST.
    let items = parse_items("name = dde*;");
    let encoded = encode_items_text(&items);
    let decoded = decode_items_text(&encoded).unwrap();
    assert_eq!(items, decoded);
}

#[test]
fn test_binary_round_trip_simple() {
    // decode(encode_binary(ast)) == ast for a parser-produced AST.
    let items = parse_items("name = test*;");
    let encoded = encode_items_binary(&items);
    let decoded = decode_items_binary(&encoded).unwrap();
    assert_eq!(items, decoded);
}

#[test]
fn test_round_trip_all_node_kinds() {
    // Every AST node kind and matcher kind is representable and
    // reconstructible in both encodings with full fidelity.
    let src = "any(all(geom.x > 0, geom.y > -2), not(attrs.map_state = unmapped), \
               attrs.override_redirect = false, id = 0x8a000??, clients): pin; \
               name = 'with space, comma'; geom.width <= 1024: filter";
    let items = parse_items(src);
    assert_eq!(items.len(), 3);

    let text = encode_items_text(&items);
    assert_eq!(decode_items_text(&text).unwrap(), items);

    let binary = encode_items_binary(&items);
    assert_eq!(decode_items_binary(&binary).unwrap(), items);
}

#[test]
fn test_round_trip_empty_list() {
    let items = parse_items("");
    assert!(items.is_empty());
    let text = encode_items_text(&items);
    assert_eq!(decode_items_text(&text).unwrap(), items);
    let binary = encode_items_binary(&items);
    assert_eq!(decode_items_binary(&binary).unwrap(), items);
}

#[test]
fn test_decode_rejects_garbage() {
    assert!(decode_items_text("not an artifact").is_none());
    assert!(decode_items_binary(&vec![9u8, 9, 9]).is_none());
    assert!(decode_items_text("").is_none());
    assert!(decode_items_binary(&Vec::new()).is_none());
}

#[test]
fn test_artifact_loads_into_filter() {
    // A compiled artifact is produced once and loaded without re-parsing.
    let items = parse_items("name = dde*; geom.width > 400: pin");
    let text = encode_items_text(&items);

    let mut filter = Filter::new();
    let loaded = filter.extend_with(&text, SheetFormat::Json);
    assert!(loaded);
    assert_eq!(filter.rules.len(), 2);

    let from_source = Filter::parse("name = dde*; geom.width > 400: pin");
    assert_eq!(filter.rules.len(), from_source.rules.len());
    for (a, b) in filter.rules.iter().zip(from_source.rules.iter()) {
        assert_eq!(a.action, b.action);
        assert_eq!(a.rule, b.rule);
    }
}

#[test]
fn test_binary_artifact_differs_from_text() {
    let items = parse_items("name = dde*;");
    let text = encode_items_text(&items);
    let binary = encode_items_binary(&items);
    assert_ne!(text.as_bytes().to_vec(), binary);
}

#[test]
fn test_reencode_is_stable() {
    // Encoding, decoding and re-encoding yields the same artifact bytes.
    let items = parse_items("all(name = a*, any(id = 3, geom.height >= 9)): pin");
    let text1 = encode_items_text(&items);
    let decoded = decode_items_text(&text1).unwrap();
    let text2 = encode_items_text(&decoded);
    assert_eq!(text1, text2);

    let bin1 = encode_items_binary(&items);
    let decoded = decode_items_binary(&bin1).unwrap();
    let bin2 = encode_items_binary(&decoded);
    assert_eq!(bin1, bin2);
}

#[test]
fn test_parser_idempotence() {
    // Re-running the parser on the same source text twice yields
    // structurally equal statement lists.
    let src = "any(name = test*, all(geom.width > 400, geom.height > 300)): pin; id = 0x10";
    let first = parse_items(src);
    let second = parse_items(src);
    assert_eq!(first, second);
}
