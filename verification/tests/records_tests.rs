use serde_json::Value;
use tree_gen::entry::{Entry, EntryKind};
use tree_gen::filter::FilterConfig;
use tree_gen::json::{generate_json_tree, TreeNode};

fn entry(name: &str, kind: EntryKind, size: u64, children: Vec<Entry>) -> Entry {
    Entry {
        name: name.to_string(),
        kind,
        size: Some(size),
        modified: Some(1_700_000_000),
        mode: Some(0o644),
        content: None,
        children,
    }
}

fn to_value(node: &TreeNode) -> Value {
    let mut fields = serde_json::Map::new();
    fields.insert("name".to_string(), Value::String(node.name.clone()));
    fields.insert("size".to_string(), Value::String(node.size.clone()));
    fields.insert("node_type".to_string(), Value::String(node.node_type.clone()));
    fields.insert("permission".to_string(), Value::String(node.permission.clone()));
    fields.insert(
        "last_modification_date".to_string(),
        Value::String(node.last_modification_date.clone()),
    );
    fields.insert(
        "children".to_string(),
        Value::Array(node.children.iter().map(to_value).collect()),
    );
    Value::Object(fields)
}

fn text_of(value: &Value, field: &str) -> String {
    value.get(field).and_then(Value::as_str).expect("a text field").to_string()
}

fn from_value(value: &Value) -> TreeNode {
    TreeNode {
        name: text_of(value, "name"),
        size: text_of(value, "size"),
        node_type: text_of(value, "node_type"),
        permission: text_of(value, "permission"),
        last_modification_date: text_of(value, "last_modification_date"),
        children: value
            .get("children")
            .and_then(Value::as_array)
            .expect("a list of children")
            .iter()
            .map(from_value)
            .collect(),
    }
}

#[test]
fn records_survive_writing_and_reading_back() {
    let tree = entry(
        "root \"quoted\"",
        EntryKind::Directory,
        0,
        vec![
            entry("a.txt", EntryKind::File, 1536, vec![]),
            entry(
                "sub",
                EntryKind::Directory,
                0,
                vec![entry("späť\n.rs", EntryKind::File, 1, vec![])],
            ),
            entry("empty", EntryKind::Directory, 0, vec![]),
        ],
    );
    let built = generate_json_tree(&tree, "root", 1, None, &FilterConfig::unfiltered());
    let written = serde_json::to_string_pretty(&to_value(&built)).unwrap();
    let read: Value = serde_json::from_str(&written).unwrap();
    let back = from_value(&read);
    assert_eq!(back, built);
    assert_eq!(back.children.len(), 3);
    assert_eq!(back.children[0].size, "1.50 KB");
    assert_eq!(back.children[1].children[0].name, "späť\n.rs");
    assert_eq!(back.children[1].node_type, "Directory");
    assert!(back.children[2].children.is_empty());
}

#[test]
fn only_directories_with_shown_entries_have_children() {
    let tree = entry(
        "root",
        EntryKind::Directory,
        0,
        vec![
            entry("a.txt", EntryKind::File, 1, vec![entry("stray", EntryKind::File, 1, vec![])]),
            entry("sub", EntryKind::Directory, 0, vec![entry(".hidden", EntryKind::File, 1, vec![])]),
        ],
    );
    let config = FilterConfig::new(None, None, None, None, None, None, true).unwrap();
    let built = generate_json_tree(&tree, "root", 1, None, &config);
    assert_eq!(built.children.len(), 2);
    assert!(built.children[0].children.is_empty());
    assert!(built.children[1].children.is_empty());
}
