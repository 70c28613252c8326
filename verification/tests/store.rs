// The plugin store: source names, zip entry safety, extraction decisions, listings.
use kapi::json::Json;
use kapi::store::{
    add_entry_size, check_dir, check_entry_count, check_matched, check_repo, is_valid_dir_name, is_valid_repo, plan_entry,
    safe_zip_segments, sort_store_entries, store_dirs, store_entry, zip_root_prefix, EntryAction,
};

fn to_json(v: &serde_json::Value) -> Json {
    match v {
        serde_json::Value::Null => Json::Null,
        serde_json::Value::Bool(b) => Json::Bool(*b),
        serde_json::Value::Number(n) => Json::Number(n.to_string()),
        serde_json::Value::String(s) => Json::Str(s.clone()),
        serde_json::Value::Array(a) => Json::Array(a.iter().map(to_json).collect()),
        serde_json::Value::Object(m) => {
            Json::Object(m.iter().map(|(k, v)| (k.clone(), to_json(v))).collect())
        }
    }
}

fn strings(v: &[&str]) -> Vec<String> {
    v.iter().map(|s| s.to_string()).collect()
}

#[test]
fn validates_repo_and_dir_names() {
    assert!(is_valid_repo("kapi-plugins/kapi-plugins"));
    assert!(is_valid_repo("a.b_c/d-e.f"));
    assert!(!is_valid_repo("../x"));
    assert!(!is_valid_repo("owner"));
    assert!(!is_valid_repo("owner/repo/extra"));
    assert!(!is_valid_repo("owner/"));
    assert!(!is_valid_repo("own er/x"));
    assert!(is_valid_dir_name("plugin-a"));
    assert!(!is_valid_dir_name("../evil"));
    assert!(!is_valid_dir_name(""));
}

#[test]
fn safe_zip_segments_accepts_normal_names() {
    assert_eq!(
        safe_zip_segments("pkg-abc/plugin/web/index.html"),
        Some(strings(&["pkg-abc", "plugin", "web", "index.html"]))
    );
    assert_eq!(safe_zip_segments("pkg-abc/plugin/web/"), Some(strings(&["pkg-abc", "plugin", "web"])));
}

#[test]
fn safe_zip_segments_rejects_traversal_and_abs() {
    assert_eq!(safe_zip_segments("../evil"), None);
    assert_eq!(safe_zip_segments("a/../../b"), None);
    assert_eq!(safe_zip_segments("/abs"), None);
    assert_eq!(safe_zip_segments("a\\b"), None);
    assert_eq!(safe_zip_segments("a//b"), None);
}

#[test]
fn zip_root_prefix_is_the_first_segment() {
    assert_eq!(zip_root_prefix("repo-abc/README.md").unwrap(), "repo-abc/");
    assert_eq!(zip_root_prefix("repo-abc/").unwrap(), "repo-abc/");
    assert_eq!(zip_root_prefix("README.md").unwrap(), "README.md/");
    assert_eq!(zip_root_prefix("").unwrap_err(), "HttpError: zipball has no root prefix");
    assert_eq!(zip_root_prefix("/x").unwrap_err(), "HttpError: zipball has no root prefix");
}

#[test]
fn entries_outside_the_subtree_are_skipped() {
    let sub = "repo-abc/plugin-a/";
    assert!(matches!(plan_entry("repo-abc/README.md", None, sub), EntryAction::Skip));
    assert!(matches!(plan_entry("repo-abc/plugin-b/plugin.toml", None, sub), EntryAction::Skip));
    assert!(matches!(plan_entry("repo-abc/plugin-a/", None, sub), EntryAction::SubtreeRoot));
    match plan_entry("repo-abc/plugin-a/web/index.html", Some(0o100644), sub) {
        EntryAction::Extract(segs) => assert_eq!(segs, strings(&["web", "index.html"])),
        other => panic!("unexpected action {other:?}"),
    }
}

#[test]
fn unsafe_and_symlink_entries_refuse_the_archive() {
    let sub = "repo-abc/plugin-a/";
    match plan_entry("repo-abc/../x", None, sub) {
        EntryAction::Reject(e) => assert_eq!(e, "HttpError: unsafe zip entry name: repo-abc/../x"),
        other => panic!("unexpected action {other:?}"),
    }
    match plan_entry("repo-abc/plugin-a/link", Some(0o120777), sub) {
        EntryAction::Reject(e) => assert_eq!(e, "HttpError: symlink zip entry: repo-abc/plugin-a/link"),
        other => panic!("unexpected action {other:?}"),
    }
}

#[test]
fn archive_caps() {
    assert_eq!(add_entry_size(100, 23).unwrap(), 123);
    assert_eq!(add_entry_size(209715200, 0).unwrap(), 209715200);
    assert_eq!(add_entry_size(209715200, 1).unwrap_err(), "HttpError: zipball exceeds the size cap (200 MiB)");
    assert_eq!(add_entry_size(0, u64::MAX).unwrap_err(), "HttpError: zipball exceeds the size cap (200 MiB)");
    assert!(check_entry_count(2000).is_ok());
    assert_eq!(check_entry_count(2001).unwrap_err(), "HttpError: zipball exceeds the entry cap (2000)");
    assert!(check_matched(true, "plugin-a").is_ok());
    assert_eq!(
        check_matched(false, "plugin-a").unwrap_err(),
        "UnknownPlugin: no 'plugin-a' directory in the zipball"
    );
}

#[test]
fn listing_keeps_valid_directories_in_order() {
    let v: serde_json::Value = serde_json::from_str(
        r#"[{"type":"dir","name":"plugin-b"},{"type":"file","name":"README.md"},
            {"type":"dir","name":"../evil"},{"type":"dir","name":"plugin-a"},{"name":"x"}]"#,
    )
    .unwrap();
    assert_eq!(store_dirs(&to_json(&v)), strings(&["plugin-b", "plugin-a"]));
    let not_array: serde_json::Value = serde_json::from_str(r#"{"message":"Not Found"}"#).unwrap();
    assert!(store_dirs(&to_json(&not_array)).is_empty());
}

#[test]
fn listing_is_capped_at_sixty() {
    let items: Vec<Json> = (0..70)
        .map(|i| {
            Json::Object(vec![
                ("type".to_string(), Json::Str("dir".to_string())),
                ("name".to_string(), Json::Str(format!("p{i}"))),
            ])
        })
        .collect();
    let dirs = store_dirs(&Json::Array(items));
    assert_eq!(dirs.len(), 60);
    assert_eq!(dirs[59], "p59");
}

#[test]
fn repo_sources_are_checked() {
    assert!(check_repo("kapi-plugins/kapi-plugins").is_ok());
    assert_eq!(check_repo("owner").unwrap_err(), "InvalidRepo: owner");
}

#[test]
fn plugin_dirs_are_checked() {
    assert!(check_dir("plugin-a").is_ok());
    assert_eq!(check_dir("..").unwrap_err(), "InvalidDir: ..");
}

fn entry_of(dir: &str, manifest: &str) -> Option<kapi::store::StoreEntry> {
    let value: serde_json::Value = serde_json::from_str(manifest).unwrap();
    store_entry(dir.to_string(), &to_json(&value))
}

#[test]
fn listing_entries_read_the_manifest() {
    let full = entry_of(
        "notes",
        r#"{"id": "kapi.notes", "name": "Notes", "version": "1.2.0", "author": "kapi",
            "description": "Quick notes", "category": "tools"}"#,
    )
    .unwrap();
    assert_eq!(full.dir, "notes");
    assert_eq!(full.id, "kapi.notes");
    assert_eq!(full.name, "Notes");
    assert_eq!(full.version, "1.2.0");
    assert_eq!(full.author.as_deref(), Some("kapi"));
    assert_eq!(full.description.as_deref(), Some("Quick notes"));
    assert_eq!(full.category.as_deref(), Some("tools"));

    let bare = entry_of("timer", r#"{"id": "kapi.timer", "name": 3}"#).unwrap();
    assert_eq!(bare.name, "kapi.timer");
    assert_eq!(bare.version, "?");
    assert!(bare.author.is_none() && bare.description.is_none() && bare.category.is_none());

    assert!(entry_of("broken", "null").is_none());
    assert!(entry_of("noid", r#"{"name": "No id"}"#).is_none());
    assert!(entry_of("numid", r#"{"id": 7}"#).is_none());
}

#[test]
fn listing_is_ordered_by_name() {
    let entries: Vec<_> = [("c", "Zeta"), ("a", "Alpha"), ("b", "Mid"), ("d", "Alpha2"), ("e", "B")]
        .iter()
        .map(|(dir, name)| entry_of(dir, &format!(r#"{{"id": "{dir}", "name": "{name}"}}"#)).unwrap())
        .collect();
    let sorted = sort_store_entries(entries);
    let names: Vec<&str> = sorted.iter().map(|e| e.name.as_str()).collect();
    assert_eq!(names, vec!["Alpha", "Alpha2", "B", "Mid", "Zeta"]);
    let dirs: Vec<&str> = sorted.iter().map(|e| e.dir.as_str()).collect();
    assert_eq!(dirs, vec!["a", "d", "e", "b", "c"]);
    assert!(sort_store_entries(Vec::new()).is_empty());
}
