use asyar::catalog::{get_id, get_usage_count, SearchState};
use asyar::errors::SearchError;
use asyar::model::{Application, Command, SearchableItem};

fn app(id: &str, name: &str, path: &str, usage: u32) -> SearchableItem {
    SearchableItem::Application(Application {
        id: id.to_string(),
        name: name.to_string(),
        path: path.to_string(),
        usage_count: usage,
    })
}

fn cmd(id: &str, name: &str, usage: u32) -> SearchableItem {
    SearchableItem::Command(Command {
        id: id.to_string(),
        name: name.to_string(),
        extension: "ext".to_string(),
        trigger: "tr".to_string(),
        command_type: "action".to_string(),
        usage_count: usage,
    })
}

#[test]
fn upsert_same_id_keeps_one_item_with_latest_values() {
    let mut c = SearchState::new();
    c.index_item(app("app_x", "One", "/one", 3)).unwrap();
    let before = c.get_indexed_object_ids().len();
    c.index_item(app("app_x", "Two", "/two", 9)).unwrap();
    let ids = c.get_indexed_object_ids();
    assert_eq!(before, 1);
    assert_eq!(ids.len(), 1);
    assert_eq!(ids[0], "app_x");
    let results = c.search_items("");
    assert_eq!(results.len(), 1);
    assert_eq!(results[0].name, "Two");
}

#[test]
fn mismatched_or_empty_id_is_rejected() {
    let mut c = SearchState::new();
    let r1 = c.index_item(app("cmd_x", "Wrong", "/w", 0));
    assert!(matches!(r1, Err(SearchError::Other(_))));
    let r2 = c.index_item(app("", "Empty", "/e", 0));
    assert!(matches!(r2, Err(SearchError::Other(_))));
    let r3 = c.index_item(cmd("app_y", "WrongCmd", 0));
    assert!(matches!(r3, Err(SearchError::Other(_))));
    let r4 = c.index_item(cmd("cmd_y", "RightCmd", 0));
    assert!(r4.is_ok());
    assert_eq!(c.get_indexed_object_ids().len(), 1);
}

#[test]
fn suggestions_order_by_usage_then_name() {
    let mut c = SearchState::new();
    c.index_item(app("app_b", "Banana", "/b", 5)).unwrap();
    c.index_item(app("app_c", "Cherry", "/c", 1)).unwrap();
    c.index_item(app("app_a", "Apple", "/a", 5)).unwrap();
    let r = c.search_items("");
    let names: Vec<&str> = r.iter().map(|x| x.name.as_str()).collect();
    assert_eq!(names, vec!["Apple", "Banana", "Cherry"]);
}

#[test]
fn match_mode_orders_by_score_then_usage_and_never_repeats_an_id() {
    let mut c = SearchState::new();
    c.index_item(app("app_finder", "Finder", "/Applications/Finder.app", 0)).unwrap();
    c.index_item(app("app_findmy", "Find My", "/Applications/FindMy.app", 10)).unwrap();
    let r = c.search_items("fin");
    assert_eq!(r.len(), 2);
    assert_ne!(r[0].object_id, r[1].object_id);
    let usage = |oid: &str| if oid == "app_finder" { 0i64 } else { 10i64 };
    assert!(
        r[0].score > r[1].score
            || (r[0].score == r[1].score
                && usage(&r[0].object_id) >= usage(&r[1].object_id))
    );
}

#[test]
fn non_matching_query_returns_nothing() {
    let mut c = SearchState::new();
    c.index_item(app("app_finder", "Finder", "/Applications/Finder.app", 0)).unwrap();
    let r = c.search_items("zzzqqq");
    assert_eq!(r.len(), 0);
}

#[test]
fn query_is_trimmed_before_matching() {
    let mut c = SearchState::new();
    c.index_item(app("app_finder", "Finder", "/Applications/Finder.app", 0)).unwrap();
    let r = c.search_items("  fin \t\n");
    assert_eq!(r.len(), 1);
    assert_eq!(r[0].object_id, "app_finder");
    let blank = c.search_items("   ");
    assert_eq!(blank.len(), 1);
}

#[test]
fn delete_removes_from_ids_and_from_search() {
    let mut c = SearchState::new();
    c.index_item(app("app_keep", "Keeper", "/k", 0)).unwrap();
    c.index_item(app("app_gone", "Vanish", "/v", 0)).unwrap();
    c.delete_item("app_gone").unwrap();
    let ids = c.get_indexed_object_ids();
    assert!(!ids.iter().any(|i| i == "app_gone"));
    let r = c.search_items("Vanish");
    assert!(!r.iter().any(|x| x.object_id == "app_gone"));
}

#[test]
fn delete_of_absent_id_reports_not_found() {
    let mut c = SearchState::new();
    c.index_item(app("app_keep", "Keeper", "/k", 0)).unwrap();
    let r = c.delete_item("app_missing");
    assert!(matches!(r, Err(SearchError::NotFound(_))));
    assert_eq!(c.get_indexed_object_ids().len(), 1);
}

#[test]
fn reset_clears_durably() {
    let mut c = SearchState::new();
    c.index_item(app("app_1", "One", "/1", 1)).unwrap();
    c.index_item(cmd("cmd_2", "Two", 2)).unwrap();
    c.reset_search_index();
    assert_eq!(c.get_indexed_object_ids().len(), 0);
    let snapshot = c.to_snapshot();
    let reloaded = SearchState::from_snapshot(&snapshot).unwrap();
    assert_eq!(reloaded.get_indexed_object_ids().len(), 0);
}

#[test]
fn usage_recording_touches_only_the_named_item() {
    let mut c = SearchState::new();
    c.index_item(app("app_a", "Alpha", "/a", 2)).unwrap();
    c.index_item(app("app_b", "Beta", "/b", 7)).unwrap();
    for _ in 0..4 {
        c.record_item_usage("app_a").unwrap();
    }
    let r = c.search_items("");
    let score = |oid: &str| r.iter().find(|x| x.object_id == oid).unwrap().score;
    assert_eq!(score("app_a"), 6);
    assert_eq!(score("app_b"), 7);
}

#[test]
fn usage_recording_of_absent_id_reports_not_found() {
    let mut c = SearchState::new();
    let r = c.record_item_usage("app_nobody");
    assert!(matches!(r, Err(SearchError::NotFound(_))));
}

#[test]
fn usage_counter_saturates_at_its_greatest_value() {
    let mut c = SearchState::new();
    c.index_item(app("app_max", "Maxed", "/m", u32::MAX)).unwrap();
    c.record_item_usage("app_max").unwrap();
    let r = c.search_items("");
    assert_eq!(r[0].score, u32::MAX as i64);
}

#[test]
fn results_are_capped_at_twenty() {
    let mut c = SearchState::new();
    for i in 0..25u32 {
        let id = format!("app_{i}");
        let name = format!("Tool {i:02}");
        c.index_item(app(&id, &name, "/t", i)).unwrap();
    }
    let r = c.search_items("");
    assert_eq!(r.len(), 20);
    assert_eq!(r[0].name, "Tool 24");
    assert_eq!(r[19].name, "Tool 05");
}

#[test]
fn crash_recovery_round_trip_restores_all_items() {
    let mut c = SearchState::new();
    c.index_item(app("app_1", "Editor", "/apps/editor", 4)).unwrap();
    c.index_item(app("app_2", "Term:inal\nodd", "/apps/term with spaces", 0)).unwrap();
    c.index_item(cmd("cmd_1", "Open Config", 2)).unwrap();
    c.index_item(cmd("cmd_2", "Süß übers Meer 🚀", 9)).unwrap();
    c.index_item(app("app_3", "", "", 1)).unwrap();
    let snapshot = c.to_snapshot();
    let reloaded = SearchState::from_snapshot(&snapshot).unwrap();
    assert_eq!(reloaded.to_snapshot(), snapshot);
    let mut ids_a = c.get_indexed_object_ids();
    let mut ids_b = reloaded.get_indexed_object_ids();
    ids_a.sort();
    ids_b.sort();
    assert_eq!(ids_a, ids_b);
    assert_eq!(ids_a.len(), 5);
}

#[test]
fn search_result_fields_mirror_the_item() {
    let mut c = SearchState::new();
    c.index_item(app("app_ed", "Editor", "/apps/editor", 4)).unwrap();
    c.index_item(cmd("cmd_oc", "Open Config", 2)).unwrap();
    let r = c.search_items("");
    let appres = r.iter().find(|x| x.object_id == "app_ed").unwrap();
    assert_eq!(appres.result_type, "application");
    assert_eq!(appres.path.as_deref(), Some("/apps/editor"));
    assert_eq!(appres.name, "Editor");
    let cmdres = r.iter().find(|x| x.object_id == "cmd_oc").unwrap();
    assert_eq!(cmdres.result_type, "command");
    assert!(cmdres.path.is_none());
}

#[test]
fn item_accessors_report_their_fields() {
    let a = app("app_ed", "Editor", "/apps/editor", 4);
    assert_eq!(get_id(&a), "app_ed");
    assert_eq!(a.get_name(), "Editor");
    assert_eq!(a.get_type_str(), "application");
    assert_eq!(get_usage_count(&a), 4);
    let k = cmd("cmd_oc", "Open Config", 2);
    assert_eq!(get_id(&k), "cmd_oc");
    assert_eq!(k.get_name(), "Open Config");
    assert_eq!(k.get_type_str(), "command");
    assert_eq!(get_usage_count(&k), 2);
}

#[test]
fn error_messages_name_the_failure() {
    assert_eq!(SearchError::LockError.message(), "Index lock poisoned");
    assert_eq!(
        SearchError::NotFound("app_x".to_string()).message(),
        "Item not found with ID: app_x"
    );
    assert_eq!(
        SearchError::Other("bad".to_string()).message(),
        "Invalid item data: bad"
    );
}

#[test]
fn default_shortcut_is_super_k() {
    let s = asyar::shortcut::ShortcutConfig::default();
    assert_eq!(s.modifier, "Super");
    assert_eq!(s.key, "K");
}
