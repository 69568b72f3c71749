use asyar::catalog::SearchState;
use asyar::codec::{decode_items, encode_items};
use asyar::ident::generate_app_id_from_path;
use asyar::errors::SearchError;
use asyar::model::{Application, SearchableItem};

fn one_app() -> SearchableItem {
    SearchableItem::Application(Application {
        id: "app_1".to_string(),
        name: "A".to_string(),
        path: "/a".to_string(),
        usage_count: 26,
    })
}

#[test]
fn encoding_one_application_gives_the_exact_record_text() {
    let text = encode_items(&vec![one_app()]);
    let expected = "A0000000000000005:app_10000000000000001:A0000000000000002:/a000000000000001a\n";
    assert_eq!(text, expected);
}

#[test]
fn decoding_the_record_text_gives_the_item_back() {
    let text = "A0000000000000005:app_10000000000000001:A0000000000000002:/a000000000000001a\n";
    let items = decode_items(text).unwrap();
    assert_eq!(items.len(), 1);
    match &items[0] {
        SearchableItem::Application(a) => {
            assert_eq!(a.id, "app_1");
            assert_eq!(a.name, "A");
            assert_eq!(a.path, "/a");
            assert_eq!(a.usage_count, 26);
        },
        SearchableItem::Command(_) => panic!("wrong variant"),
    }
}

#[test]
fn empty_text_decodes_to_an_empty_catalog() {
    let items = decode_items("").unwrap();
    assert_eq!(items.len(), 0);
    let c = SearchState::from_snapshot("").unwrap();
    assert_eq!(c.get_indexed_object_ids().len(), 0);
}

#[test]
fn malformed_text_is_rejected_as_a_serialization_error() {
    assert!(matches!(decode_items("garbage"), Err(SearchError::Json(_))));
    assert!(matches!(decode_items("A000:x"), Err(SearchError::Json(_))));
    let truncated = "A0000000000000005:app";
    assert!(matches!(decode_items(truncated), Err(SearchError::Json(_))));
}

#[test]
fn snapshot_with_duplicated_ids_is_rejected() {
    let items = vec![one_app(), one_app()];
    let text = encode_items(&items);
    assert!(matches!(
        SearchState::from_snapshot(&text),
        Err(SearchError::Json(_))
    ));
}

#[test]
fn snapshot_with_a_bad_id_is_rejected() {
    let bad = SearchableItem::Application(Application {
        id: "cmd_wrong".to_string(),
        name: "B".to_string(),
        path: "/b".to_string(),
        usage_count: 0,
    });
    let text = encode_items(&vec![bad]);
    assert!(matches!(
        SearchState::from_snapshot(&text),
        Err(SearchError::Json(_))
    ));
}

#[test]
fn derived_application_ids_are_stable_and_prefixed() {
    let a = generate_app_id_from_path("/Applications/Safari.app");
    let b = generate_app_id_from_path("/Applications/Safari.app");
    let c = generate_app_id_from_path("/Applications/Mail.app");
    assert_eq!(a, b);
    assert_ne!(a, c);
    assert!(a.starts_with("app_"));
    assert_eq!(a.len(), 20);
}

#[test]
fn derived_id_of_the_empty_path_is_the_hash_seed() {
    let a = generate_app_id_from_path("");
    assert_eq!(a, "app_cbf29ce484222325");
}
