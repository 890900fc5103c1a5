use sqlite_json::json::{copy_of, json_equal, Json, Member};
use sqlite_json::path::split_key;
use sqlite_json::store::{
    listing, plan_clear, plan_delete, plan_pull, plan_push, plan_set, resolve, contains,
    root_key, RowChange,
};
use sqlite_json::structure::SQLiteDriverOptions;

fn num(s: &str) -> Json {
    Json::Number(s.to_string())
}

fn text(s: &str) -> Json {
    Json::Text(s.to_string())
}

fn obj(members: Vec<(&str, Json)>) -> Json {
    Json::Object(
        members
            .into_iter()
            .map(|(name, value)| Member { name: name.to_string(), value })
            .collect(),
    )
}

fn same(a: &Json, b: &Json) -> bool {
    json_equal(a, b)
}

fn put_parts(change: RowChange) -> (String, Json) {
    match change {
        RowChange::Put { root, document } => (root, document),
        other => panic!("expected a put, got {:?}", other),
    }
}

fn set_doc(key: &str, doc: Option<Json>, value: Json) -> Json {
    put_parts(plan_set(key, doc, value)).1
}

#[test]
fn split_key_cuts_at_every_dot() {
    assert_eq!(split_key("a.b.c"), vec!["a".to_string(), "b".to_string(), "c".to_string()]);
    assert_eq!(split_key("plain"), vec!["plain".to_string()]);
    assert_eq!(split_key(""), vec!["".to_string()]);
    assert_eq!(split_key("a..b"), vec!["a".to_string(), "".to_string(), "b".to_string()]);
    assert_eq!(split_key("é.ü"), vec!["é".to_string(), "ü".to_string()]);
}

#[test]
fn root_key_is_text_before_first_dot() {
    assert_eq!(root_key("user.name"), "user");
    assert_eq!(root_key("user"), "user");
    assert_eq!(root_key("a.b.c"), "a");
}

#[test]
fn set_then_get_round_trips() {
    let (root, doc) = put_parts(plan_set("k", None, text("hello")));
    assert_eq!(root, "k");
    assert!(same(&doc, &text("hello")));
    let got = resolve("k", Some(doc)).unwrap();
    assert!(same(&got, &text("hello")));
}

#[test]
fn set_replaces_whole_root() {
    let doc = obj(vec![("a", num("1"))]);
    let new_doc = set_doc("k", Some(doc), num("7"));
    assert!(same(&new_doc, &num("7")));
}

#[test]
fn set_field_keeps_siblings() {
    let d1 = set_doc("user.name", None, text("ann"));
    assert!(same(&d1, &obj(vec![("name", text("ann"))])));
    let d2 = set_doc("user.age", Some(d1), num("30"));
    assert!(same(&d2, &obj(vec![("name", text("ann")), ("age", num("30"))])));
    let name = resolve("user.name", Some(copy_of(&d2))).unwrap();
    assert!(same(&name, &text("ann")));
    let age = resolve("user.age", Some(d2)).unwrap();
    assert!(same(&age, &num("30")));
}

#[test]
fn set_field_overwrites_in_place() {
    let doc = obj(vec![("a", num("1")), ("b", num("2"))]);
    let new_doc = set_doc("r.a", Some(doc), num("9"));
    assert!(same(&new_doc, &obj(vec![("a", num("9")), ("b", num("2"))])));
}

#[test]
fn set_field_on_non_object_root_starts_an_object() {
    let new_doc = set_doc("r.f", Some(num("3")), text("v"));
    assert!(same(&new_doc, &obj(vec![("f", text("v"))])));
}

#[test]
fn set_deep_path_creates_objects() {
    let doc = set_doc("a.b.c", None, num("1"));
    assert!(same(&doc, &obj(vec![("b", obj(vec![("c", num("1"))]))])));
    let c = resolve("a.b.c", Some(copy_of(&doc))).unwrap();
    assert!(same(&c, &num("1")));
    let b = resolve("a.b", Some(doc)).unwrap();
    assert!(same(&b, &obj(vec![("c", num("1"))])));
}

#[test]
fn set_deep_path_replaces_non_object_member() {
    let doc = obj(vec![("b", num("5")), ("x", Json::Bool(true))]);
    let new_doc = set_doc("a.b.c", Some(doc), num("1"));
    assert!(same(
        &new_doc,
        &obj(vec![("b", obj(vec![("c", num("1"))])), ("x", Json::Bool(true))])
    ));
}

#[test]
fn resolve_absent_cases() {
    assert!(resolve("k", None).is_none());
    assert!(resolve("k.f", None).is_none());
    assert!(resolve("k.f", Some(num("1"))).is_none());
    assert!(resolve("k.f", Some(obj(vec![("g", num("1"))]))).is_none());
    assert!(resolve("k.f", Some(Json::Array(vec![num("1")]))).is_none());
}

#[test]
fn has_counts_stored_null() {
    let doc = set_doc("k", None, Json::Null);
    assert!(contains("k", Some(doc)));
    assert!(!contains("k", None));
    let doc2 = set_doc("r.f", None, Json::Null);
    assert!(contains("r.f", Some(copy_of(&doc2))));
    assert!(!contains("r.g", Some(doc2)));
}

#[test]
fn delete_field_removes_only_that_field() {
    let doc = obj(vec![("field", num("1")), ("other", num("2"))]);
    let (root, after) = put_parts(plan_delete("root.field", Some(doc)));
    assert_eq!(root, "root");
    assert!(same(&after, &obj(vec![("other", num("2"))])));
    assert!(!contains("root.field", Some(copy_of(&after))));
    let other = resolve("root.other", Some(copy_of(&after))).unwrap();
    assert!(same(&other, &num("2")));
    let whole = resolve("root", Some(after)).unwrap();
    assert!(same(&whole, &obj(vec![("other", num("2"))])));
}

#[test]
fn delete_field_of_absent_root_writes_null() {
    let (root, after) = put_parts(plan_delete("x.y", None));
    assert_eq!(root, "x");
    assert!(same(&after, &Json::Null));
}

#[test]
fn delete_missing_field_keeps_document() {
    let doc = obj(vec![("a", num("1"))]);
    let (_, after) = put_parts(plan_delete("r.zzz", Some(doc)));
    assert!(same(&after, &obj(vec![("a", num("1"))])));
}

#[test]
fn delete_root_removes_row() {
    match plan_delete("user", Some(num("1"))) {
        RowChange::Remove { root } => assert_eq!(root, "user"),
        other => panic!("expected a removal, got {:?}", other),
    }
}

#[test]
fn delete_deep_field() {
    let doc = obj(vec![("b", obj(vec![("c", num("1")), ("d", num("2"))]))]);
    let (_, after) = put_parts(plan_delete("a.b.c", Some(doc)));
    assert!(same(&after, &obj(vec![("b", obj(vec![("d", num("2"))]))])));
}

#[test]
fn clear_is_a_clear() {
    assert!(matches!(plan_clear(), RowChange::Clear));
}

#[test]
fn push_on_absent_key_gives_single_item() {
    let (items, change) = plan_push("list", None, num("1"));
    assert_eq!(items.len(), 1);
    assert!(same(&items[0], &num("1")));
    let (root, doc) = put_parts(change);
    assert_eq!(root, "list");
    assert!(same(&doc, &Json::Array(vec![num("1")])));
}

#[test]
fn push_appends_in_order() {
    let doc = Json::Array(vec![num("1"), num("2")]);
    let (items, _) = plan_push("list", Some(doc), num("3"));
    assert!(same(&Json::Array(items), &Json::Array(vec![num("1"), num("2"), num("3")])));
}

#[test]
fn push_on_non_array_starts_fresh() {
    let (items, _) = plan_push("list", Some(text("x")), num("3"));
    assert!(same(&Json::Array(items), &Json::Array(vec![num("3")])));
}

#[test]
fn push_into_field() {
    let doc = obj(vec![("tags", Json::Array(vec![text("a")])), ("n", num("1"))]);
    let (items, change) = plan_push("post.tags", Some(doc), text("b"));
    assert!(same(&Json::Array(items), &Json::Array(vec![text("a"), text("b")])));
    let (_, after) = put_parts(change);
    assert!(same(
        &after,
        &obj(vec![("tags", Json::Array(vec![text("a"), text("b")])), ("n", num("1"))])
    ));
}

#[test]
fn pull_removes_every_occurrence() {
    let doc = Json::Array(vec![num("1"), num("2"), num("1"), num("3")]);
    let (items, change) = plan_pull("k", Some(doc), &num("1"));
    assert!(same(&Json::Array(items), &Json::Array(vec![num("2"), num("3")])));
    let (_, after) = put_parts(change);
    assert!(same(&after, &Json::Array(vec![num("2"), num("3")])));
}

#[test]
fn pull_compares_structurally() {
    let item = obj(vec![("id", num("1"))]);
    let doc = Json::Array(vec![copy_of(&item), obj(vec![("id", num("2"))]), copy_of(&item)]);
    let (items, _) = plan_pull("k", Some(doc), &item);
    assert!(same(&Json::Array(items), &Json::Array(vec![obj(vec![("id", num("2"))])])));
}

#[test]
fn pull_on_absent_key_gives_empty() {
    let (items, _) = plan_pull("k", None, &num("1"));
    assert!(items.is_empty());
}

#[test]
fn listing_keeps_malformed_rows_as_null() {
    let rows = vec![
        ("a".to_string(), Some(num("1"))),
        ("bad".to_string(), None),
        ("b".to_string(), Some(num("2"))),
    ];
    let listed = listing(rows);
    assert_eq!(listed.len(), 3);
    assert_eq!(listed[0].0, "a");
    assert!(same(&listed[0].1, &num("1")));
    assert_eq!(listed[1].0, "bad");
    assert!(same(&listed[1].1, &Json::Null));
    assert_eq!(listed[2].0, "b");
    assert!(same(&listed[2].1, &num("2")));
}

#[test]
fn listing_of_empty_scan_is_empty() {
    assert!(listing(Vec::new()).is_empty());
}

#[test]
fn json_equal_distinguishes() {
    assert!(same(&num("1"), &num("1")));
    assert!(!same(&num("1"), &num("1.0")));
    assert!(!same(&num("1"), &text("1")));
    assert!(!same(&Json::Null, &Json::Bool(false)));
    assert!(!same(&Json::Array(vec![num("1")]), &Json::Array(vec![num("1"), num("1")])));
    assert!(!same(&obj(vec![("a", num("1"))]), &obj(vec![("b", num("1"))])));
    assert!(same(&obj(vec![("a", Json::Array(vec![]))]), &obj(vec![("a", Json::Array(vec![]))])));
}

#[test]
fn copy_is_equal() {
    let doc = obj(vec![("a", Json::Array(vec![num("1"), text("x")])), ("b", Json::Null)]);
    assert!(same(&copy_of(&doc), &doc));
}

#[test]
fn options_default_to_json_file_and_table() {
    let o = SQLiteDriverOptions::or_default(None);
    assert_eq!(o.file_name, "json.sqlite");
    assert_eq!(o.table_name, "json");
    let given = SQLiteDriverOptions {
        file_name: "data.db".to_string(),
        table_name: "users".to_string(),
    };
    let o2 = SQLiteDriverOptions::or_default(Some(given));
    assert_eq!(o2.file_name, "data.db");
    assert_eq!(o2.table_name, "users");
}
