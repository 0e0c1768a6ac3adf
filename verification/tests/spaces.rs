use events::json::{parse_json, Json};
use events::links::url_for_location;
use events::spaces::{parse_spaces, spaces_from_json, Space, SpacesError};

fn space(label: &str, id: &str) -> Space {
    Space { space_label: label.to_string(), id: id.to_string() }
}

#[test]
fn spaces_are_read_from_text() {
    let text = r#"{
        "items": [
            {"spaceLabel": "Ag B301", "id": "12", "floor": 3},
            {"spaceLabel": "", "id": "13"},
            {"spaceLabel": "Ag C1", "id": 14},
            {"spaceLabel": "Ag C2"},
            {"id": "15"},
            "Ag C3",
            null,
            [{"spaceLabel": "Ag C4", "id": "16"}],
            {"spaceLabel": "MaD 202", "id": "a/b"}
        ]
    }"#;
    let spaces = parse_spaces(text.to_string()).unwrap();
    assert_eq!(spaces.len(), 2);
    assert_eq!(spaces[0].space_label, "Ag B301");
    assert_eq!(spaces[0].id, "12");
    assert_eq!(spaces[1].space_label, "MaD 202");
    assert_eq!(spaces[1].id, "a/b");
}

#[test]
fn text_that_is_not_json_lists_no_spaces() {
    for text in ["", "{\"items\": [}"] {
        let reason = serde_json::from_str::<serde_json::Value>(text).unwrap_err().to_string();
        let error = parse_spaces(text.to_string()).unwrap_err();
        assert_eq!(error, SpacesError::NotJson(reason.clone()));
        assert_eq!(error.message(), reason);
        assert_eq!(parse_json(text).err(), Some(reason));
    }
}

#[test]
fn documents_without_items_are_unrecognized() {
    for text in ["{}", "[]", "null", "3", "\"items\"", "{\"items\": {}}", "{\"items\": null}"] {
        assert_eq!(parse_spaces(text.to_string()).unwrap_err(), SpacesError::UnrecognizedFormat);
    }
    let error = parse_spaces(r#"[{"spaceLabel":"Ag","id":"1"}]"#.to_string()).unwrap_err();
    assert_eq!(error.message(), "spaces are expressed in an unrecognized format");
    assert!(parse_spaces("{\"items\": []}".to_string()).unwrap().is_empty());
}

#[test]
fn the_last_of_two_members_with_one_name_counts() {
    let text = r#"{"items": [{"spaceLabel": "A", "spaceLabel": "B", "id": "1"}]}"#;
    let spaces = parse_spaces(text.to_string()).unwrap();
    assert_eq!(spaces.len(), 1);
    assert_eq!(spaces[0].space_label, "B");
}

#[test]
fn spaces_of_a_document_come_in_order() {
    let item = |label: &str, id: &str| {
        Json::Object(vec![
            ("id".to_string(), Json::Text(id.to_string())),
            ("spaceLabel".to_string(), Json::Text(label.to_string())),
        ])
    };
    let first = Json::Object(vec![("items".to_string(), Json::Array(vec![item("B", "2")]))]);
    let rest = Json::Object(vec![("items".to_string(), Json::Array(vec![Json::Scalar, item("A", "1")]))]);
    let both = Json::Object(vec![(
        "items".to_string(),
        Json::Array(vec![item("B", "2"), Json::Scalar, item("A", "1")]),
    )]);
    let mut joined: Vec<String> = Vec::new();
    for document in [&first, &rest] {
        for found in spaces_from_json(document).unwrap() {
            joined.push(found.space_label);
        }
    }
    let whole: Vec<String> =
        spaces_from_json(&both).unwrap().into_iter().map(|found| found.space_label).collect();
    assert_eq!(joined, whole);
    assert_eq!(whole, ["B", "A"]);
}

#[test]
fn listed_spaces_have_labels() {
    let text = r#"{"items": [{"spaceLabel": "", "id": "1"}, {"spaceLabel": " ", "id": ""}]}"#;
    let spaces = parse_spaces(text.to_string()).unwrap();
    assert_eq!(spaces.len(), 1);
    assert_eq!(spaces[0].space_label, " ");
    assert_eq!(spaces[0].id, "");
}

#[test]
fn json_documents_are_taken_apart() {
    let document = parse_json("{\"a\": [1, true, \"x\"], \"b\": {\"c\": null}}").unwrap();
    match document.get("a") {
        Some(Json::Array(items)) => {
            assert_eq!(items.len(), 3);
            assert!(matches!(items[0], Json::Scalar));
            assert!(matches!(items[1], Json::Scalar));
            assert!(matches!(&items[2], Json::Text(text) if text == "x"));
        }
        _ => panic!("no array"),
    }
    let inner = document.get("b").unwrap();
    assert!(matches!(inner.get("c"), Some(Json::Scalar)));
    assert!(inner.get("a").is_none());
    assert!(document.get("a").unwrap().get("a").is_none());
    assert!(parse_json("{").is_err());
}

#[test]
fn locations_that_name_a_space_link_to_it() {
    let spaces = vec![space("Ag B301", "id 1"), space("MaD", "2")];
    assert_eq!(url_for_location("Ag B301", &spaces), "https://navi.jyu.fi/space/id%201");
    assert_eq!(url_for_location("Ag B301, Mattilanniemi 2", &spaces), "https://navi.jyu.fi/space/id%201");
    assert_eq!(url_for_location("MaD 202", &spaces), "https://navi.jyu.fi/space/2");
}

#[test]
fn the_first_named_space_gives_the_link() {
    let spaces = vec![space("X", "0"), space("Ag", "1"), space("Ag B", "2")];
    assert_eq!(url_for_location("Ag B301", &spaces), "https://navi.jyu.fi/space/1");
}

#[test]
fn space_codes_are_case_sensitive_and_stand_first() {
    let spaces = vec![space("Ag B301", "1")];
    assert_eq!(
        url_for_location("ag b301", &spaces),
        "https://www.google.com/maps/search/?api=1&query=ag%20b301"
    );
    assert_eq!(
        url_for_location("Room Ag B301", &spaces),
        "https://www.google.com/maps/search/?api=1&query=Room%20Ag%20B301"
    );
    assert_eq!(
        url_for_location("Ag B30", &spaces),
        "https://www.google.com/maps/search/?api=1&query=Ag%20B30"
    );
}

#[test]
fn other_locations_are_searched_on_the_map() {
    assert_eq!(
        url_for_location("Jyv\u{e4}skyl\u{e4} & co/1?", &Vec::new()),
        "https://www.google.com/maps/search/?api=1&query=Jyv%C3%A4skyl%C3%A4%20%26%20co%2F1%3F"
    );
    assert_eq!(url_for_location("", &Vec::new()), "https://www.google.com/maps/search/?api=1&query=");
}

#[test]
fn encoded_text_holds_only_safe_characters() {
    let location = "\"<>#%{}|\\^`\n\t\u{20ac}-._~aZ09+=;:@";
    let url = url_for_location(location, &Vec::new());
    let query = url.strip_prefix("https://www.google.com/maps/search/?api=1&query=").unwrap();
    assert_eq!(
        query,
        "%22%3C%3E%23%25%7B%7D%7C%5C%5E%60%0A%09%E2%82%AC-._~aZ09%2B%3D%3B%3A%40"
    );
    assert!(query.chars().all(|c| c.is_ascii_alphanumeric() || "%-._~".contains(c)));
}

#[test]
fn map_links_tell_locations_apart() {
    let decode = |location: &str| {
        let url = url_for_location(location, &Vec::new());
        let query = url.strip_prefix("https://www.google.com/maps/search/?api=1&query=").unwrap().to_string();
        urlencoding::decode(&query).unwrap().into_owned()
    };
    for location in ["Agora", "a b", "a%20b", "\u{e4}\u{20ac}\u{1f3e0}", ""] {
        assert_eq!(decode(location), location);
    }
    assert_ne!(url_for_location("a b", &Vec::new()), url_for_location("a%20b", &Vec::new()));
}
