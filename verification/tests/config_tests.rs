use packer::config::{
    parse_content_item, parse_document, ContentItem, ParsedContentItem, RawDoc, RawItem,
};

fn pair(k: &str, v: &str) -> (Option<String>, Option<String>) {
    (Some(k.to_string()), Some(v.to_string()))
}

#[test]
fn document_with_output_and_content_parses() {
    let doc = RawDoc {
        output: Some("bundle.pak".to_string()),
        base: None,
        content: Some(vec![
            RawItem::Text("assets/*.png".to_string()),
            RawItem::Pairs(vec![pair("icon", "img/icon.svg")]),
        ]),
    };
    let config = parse_document(&doc).expect("document must parse");
    assert_eq!(config.output, "bundle.pak");
    assert!(config.base.is_none());
    assert_eq!(config.content.len(), 2);
    assert!(matches!(&config.content[0], ContentItem::Unnamed { pattern } if pattern == "assets/*.png"));
    assert!(
        matches!(&config.content[1], ContentItem::Named { name, pattern } if name == "icon" && pattern == "img/icon.svg")
    );
}

#[test]
fn mapping_with_many_pairs_expands_in_order() {
    let item = RawItem::Pairs(vec![pair("a", "p1"), pair("b", "p2"), pair("c", "p3")]);
    match parse_content_item(&item).expect("mapping must parse") {
        ParsedContentItem::Multiple(items) => {
            assert_eq!(items.len(), 3);
            assert!(matches!(&items[0], ContentItem::Named { name, .. } if name == "a"));
            assert!(matches!(&items[1], ContentItem::Named { name, .. } if name == "b"));
            assert!(matches!(&items[2], ContentItem::Named { name, .. } if name == "c"));
        },
        ParsedContentItem::Single(_) => panic!("three pairs must expand to multiple items"),
    }
}

#[test]
fn mapping_with_one_pair_stays_single() {
    let item = RawItem::Pairs(vec![pair("icon", "img/icon.svg")]);
    match parse_content_item(&item).expect("single mapping must parse") {
        ParsedContentItem::Single(ContentItem::Named { name, pattern }) => {
            assert_eq!(name, "icon");
            assert_eq!(pattern, "img/icon.svg");
        },
        _ => panic!("one pair must stay a single named item"),
    }
}

#[test]
fn missing_output_is_rejected() {
    let doc = RawDoc { output: None, base: None, content: Some(vec![]) };
    assert!(parse_document(&doc).is_err());
}

#[test]
fn missing_content_is_rejected() {
    let doc = RawDoc { output: Some("o".to_string()), base: None, content: None };
    assert!(parse_document(&doc).is_err());
}

#[test]
fn empty_mapping_is_rejected() {
    assert!(parse_content_item(&RawItem::Pairs(vec![])).is_err());
}

#[test]
fn non_string_key_is_rejected() {
    let item = RawItem::Pairs(vec![(None, Some("p".to_string()))]);
    assert!(parse_content_item(&item).is_err());
}

#[test]
fn empty_key_is_rejected() {
    let item = RawItem::Pairs(vec![pair("", "p")]);
    assert!(parse_content_item(&item).is_err());
}

#[test]
fn non_string_value_is_rejected() {
    let item = RawItem::Pairs(vec![(Some("k".to_string()), None)]);
    assert!(parse_content_item(&item).is_err());
}

#[test]
fn unparsable_item_is_rejected() {
    assert!(parse_content_item(&RawItem::Other).is_err());
}

#[test]
fn bad_item_fails_the_whole_document() {
    let doc = RawDoc {
        output: Some("o".to_string()),
        base: None,
        content: Some(vec![RawItem::Text("ok".to_string()), RawItem::Other]),
    };
    assert!(parse_document(&doc).is_err());
}

#[test]
fn base_override_is_carried() {
    let doc = RawDoc {
        output: Some("o".to_string()),
        base: Some("assets".to_string()),
        content: Some(vec![]),
    };
    let config = parse_document(&doc).expect("document must parse");
    assert_eq!(config.base.as_deref(), Some("assets"));
    assert_eq!(config.content.len(), 0);
}
