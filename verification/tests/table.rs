use cache_buster::filemap;
use cache_buster::map::Files;

fn sample() -> Files {
    let mut files = Files::new("/tmp/prod2");
    files
        .add(
            "./dist/log-out.svg".to_string(),
            "/tmp/prod2/log-out.HASH.svg".to_string(),
        )
        .unwrap();
    files
        .add(
            "./dist/a/b/c/d/s/d/svg/credit-card.svg".to_string(),
            "/tmp/prod2/a/b/c/d/s/d/svg/credit-card.HASH.svg".to_string(),
        )
        .unwrap();
    files
}

#[test]
fn add_is_write_once() {
    let mut files = Files::new("./dist");
    assert!(files
        .add("./dist/a.svg".to_string(), "./prod/a.X.svg".to_string())
        .is_ok());
    assert!(files
        .add("./dist/a.svg".to_string(), "./prod/a.Y.svg".to_string())
        .is_err());
    // the first insertion stays
    assert_eq!(files.get("./dist/a.svg").unwrap(), "./prod/a.X.svg");
}

#[test]
fn get_is_exact_match_only() {
    let files = sample();
    assert_eq!(
        files.get("./dist/log-out.svg").unwrap(),
        "/tmp/prod2/log-out.HASH.svg"
    );
    // a path differing only by its leading segment is a different key
    assert!(files.get("dist/log-out.svg").is_none());
    assert!(files.get("dist/a/b/c/d/s/d/svg/credit-card.svg").is_none());
    assert!(files.get("./dist/missing.svg").is_none());
    assert!(files.get("").is_none());
}

#[test]
fn serialize_round_trips() {
    let files = sample();
    let text = files.serialize();
    let back = Files::load(text.as_str()).unwrap();
    assert_eq!(back.map, files.map);
    assert_eq!(back.serialize(), text);
}

#[test]
fn serialize_round_trips_awkward_text() {
    let mut files = Files::new("base:with\ndelimiters.123");
    files
        .add("key with spaces".to_string(), "value:with:colons".to_string())
        .unwrap();
    files
        .add("newline\nkey".to_string(), "1:\n.E77".to_string())
        .unwrap();
    files.add(String::new(), "empty key's value".to_string()).unwrap();
    let text = files.serialize();
    let back = Files::load(text.as_str()).unwrap();
    assert_eq!(back.map, files.map);
    assert_eq!(back.serialize(), text);
}

#[test]
fn load_rejects_malformed_text() {
    assert!(Files::load("").is_none());
    assert!(Files::load("not a document").is_none());
    assert!(Files::load("4:base").is_none());
    // truncated: entry promised but missing
    assert!(Files::load("4:base\nE").is_none());
    // trailing text after the terminator
    assert!(Files::load("4:base\n.x").is_none());
    // a record length that overruns the text
    assert!(Files::load("999:base\n.").is_none());
    let good = sample().serialize();
    assert!(Files::load(&good).is_some());
    assert!(Files::load(&format!("{}extra", good)).is_none());
}

#[test]
fn load_rejects_repeated_keys() {
    // two entries under one key cannot come from a table, which is
    // write-once per key
    let doc = "1:b\nE1:k\n2:v1\nE1:k\n2:v2\n.";
    assert!(Files::load(doc).is_none());
    let distinct = "1:b\nE1:k\n2:v1\nE1:l\n2:v2\n.";
    assert!(Files::load(distinct).is_some());
}

#[test]
fn empty_table_round_trips() {
    let files = Files::new("./dist");
    let text = files.serialize();
    let back = Files::load(&text).unwrap();
    assert!(back.map.is_empty());
    assert_eq!(back.serialize(), text);
    let runtime = filemap::Files::new(&text);
    assert!(runtime.get("anything").is_none());
}

#[test]
fn runtime_get_needs_room_for_the_cut() {
    // a stored path shorter than the base directory leaves nothing to serve
    let mut files = Files::new("/very/long/base/dir");
    files.add("k".to_string(), "/x".to_string()).unwrap();
    let text = files.serialize();
    let runtime = filemap::Files::new(&text);
    assert_eq!(runtime.get_full_path("k").unwrap(), "/x");
    assert!(runtime.get("k").is_none());
}

#[test]
fn runtime_map_strips_base_dir() {
    let files = sample();
    let text = files.serialize();
    let runtime = filemap::Files::new(&text);
    assert_eq!(
        runtime.get_full_path("./dist/log-out.svg").unwrap(),
        "/tmp/prod2/log-out.HASH.svg"
    );
    // the base directory's length is cut off the front
    assert_eq!(runtime.get("./dist/log-out.svg").unwrap(), "/log-out.HASH.svg");
    assert!(runtime.get("dist/log-out.svg").is_none());
    assert!(runtime.get_full_path("dist/log-out.svg").is_none());
}
