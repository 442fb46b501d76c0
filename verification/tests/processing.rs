use cache_buster::filemap;
use cache_buster::processor::Buster;
use cache_buster::processor::BusterError;
use cache_buster::processor::Entry;
use cache_buster::processor::NoHashCategory;
use sha2::Digest;

fn file(path: &str, contents: &[u8]) -> Entry {
    Entry {
        path: path.to_string(),
        is_dir: false,
        contents: contents.to_vec(),
    }
}

fn dir(path: &str) -> Entry {
    Entry {
        path: path.to_string(),
        is_dir: true,
        contents: Vec::new(),
    }
}

fn image_types() -> Vec<String> {
    vec![
        mime::IMAGE_PNG.essence_str().to_string(),
        mime::IMAGE_SVG.essence_str().to_string(),
        mime::IMAGE_JPEG.essence_str().to_string(),
        mime::IMAGE_GIF.essence_str().to_string(),
    ]
}

fn config(source: &str, result: &str) -> Buster {
    Buster {
        source: source.to_string(),
        mime_types: Some(image_types()),
        result: result.to_string(),
        prefix: None,
        copy: true,
        follow_links: true,
        no_hash: Vec::new(),
    }
}

fn dist_entries(source: &str) -> Vec<Entry> {
    vec![
        dir(source),
        file(&format!("{}/log-out.svg", source), b"<svg>log-out</svg>"),
        file(&format!("{}/bell.svg", source), b"<svg>bell</svg>"),
        file(&format!("{}/eye.svg", source), b"<svg>eye</svg>"),
        dir(&format!("{}/a", source)),
        dir(&format!("{}/a/b", source)),
        dir(&format!("{}/a/b/c", source)),
        dir(&format!("{}/a/b/c/d", source)),
        dir(&format!("{}/a/b/c/d/s", source)),
        dir(&format!("{}/a/b/c/d/s/d", source)),
        dir(&format!("{}/a/b/c/d/s/d/svg", source)),
        file(
            &format!("{}/a/b/c/d/s/d/svg/credit-card.svg", source),
            b"<svg>credit-card</svg>",
        ),
        file(
            &format!("{}/a/b/c/d/s/d/svg/10.svg", source),
            b"<svg>ten</svg>",
        ),
    ]
}

fn token(contents: &[u8]) -> String {
    data_encoding::HEXUPPER.encode(sha2::Sha256::digest(contents).as_slice())
}

#[test]
fn hasher_works() {
    let config = config("./dist", "./prod");
    let entries = dist_entries("./dist");
    config.init(&entries);
    let (files, copies) = config.hash(&entries).unwrap();
    // every recorded source is a walked file, and its bytes are planned to
    // land exactly where the table points (the copy plan is the in-memory
    // analogue of both paths existing on disk after a run)
    for (k, v) in files.map.iter() {
        assert!(entries.iter().any(|e| !e.is_dir && &e.path == k));
        assert!(copies
            .iter()
            .any(|c| &c.source == k && &c.destination == v));
    }
    assert_eq!(files.map.len(), 5);
}

#[test]
fn try_hash_works() {
    let config = config("./dist", "/tmp/prod");
    let mut entries = dist_entries("./dist");
    // a file whose media type cannot be guessed is skipped, not fatal
    entries.push(file("./dist/unguessable", b"??"));
    config.init(&entries);
    let (files, copies) = config.try_hash(&entries).unwrap();
    for (k, v) in files.map.iter() {
        assert!(entries.iter().any(|e| !e.is_dir && &e.path == k));
        assert!(copies
            .iter()
            .any(|c| &c.source == k && &c.destination == v));
    }
    assert_eq!(files.map.len(), 5);
    assert!(files.get("./dist/unguessable").is_none());
}

#[test]
fn get_works() {
    let config = config("./dist", "/tmp/prod2");
    let entries = dist_entries("./dist");
    config.init(&entries);
    let (files, copies) = config.hash(&entries).unwrap();

    let check = |path: &str| -> bool {
        match files.get(path) {
            Some(dest) => copies.iter().any(|c| &c.destination == dest),
            None => false,
        }
    };
    assert!(check("./dist/log-out.svg"));
    assert!(check("./dist/a/b/c/d/s/d/svg/credit-card.svg"));

    assert!(!check("dist/log-out.svg"));
    assert!(!check("dist/a/b/c/d/s/d/svg/credit-card.svg"));
}

#[test]
fn load_works() {
    let config = config("./dist", "/tmp/prod3");
    let entries = dist_entries("./dist");
    config.init(&entries);
    let (files, _copies) = config.hash(&entries).unwrap();

    let transported = files.serialize();
    let x = cache_buster::map::Files::load(&transported).unwrap();

    assert_eq!(files.map, x.map);
    assert_eq!(files.serialize(), x.serialize());
}

#[test]
fn no_hash_validation_works() {
    let no_hash = NoHashCategory::FilePaths(vec![
        "bbell.svg".to_string(),
        "eye.svg".to_string(),
        "a/b/c/d/s/d/svg/10.svg".to_string(),
    ]);
    let config = Buster {
        source: "./dist".to_string(),
        mime_types: Some(image_types()),
        result: "/tmp/prod2i".to_string(),
        prefix: Some("/test".to_string()),
        copy: true,
        follow_links: true,
        no_hash: vec![no_hash],
    };
    let entries = dist_entries("./dist");
    // "bbell.svg" does not exist under the source, so the configuration is
    // refused before any processing
    match config.validate(&entries) {
        Err(BusterError::PathNotFound(p)) => assert_eq!(p, "bbell.svg"),
        _ => panic!("validation must refuse a missing excluded path"),
    }
    // with only existing paths the same configuration passes
    let ok = Buster {
        no_hash: vec![NoHashCategory::FilePaths(vec![
            "eye.svg".to_string(),
            "a/b/c/d/s/d/svg/10.svg".to_string(),
        ])],
        ..config
    };
    assert!(ok.validate(&entries).is_ok());
}

#[test]
fn runner() {
    // the full pipeline: process, transport the table, load it at runtime
    let config = config("./dist", "/tmp/prodsd2");
    let entries = dist_entries("./dist");
    let out = config.process(&entries).unwrap();
    let transported = out.files.serialize();
    let runtime = filemap::Files::new(&transported);

    let get_full_path_runner = |path: &str| -> bool {
        match runtime.get_full_path(path) {
            Some(dest) => out.copies.iter().any(|c| &c.destination == dest),
            None => false,
        }
    };
    assert!(get_full_path_runner("./dist/log-out.svg"));
    assert!(get_full_path_runner("./dist/a/b/c/d/s/d/svg/credit-card.svg"));
    assert!(!get_full_path_runner("dist/log-out.svg"));
    assert!(!get_full_path_runner("dist/a/b/c/d/s/d/svg/credit-card.svg"));
}

#[test]
fn fingerprinted_name_embeds_content_token() {
    let config = config("./dist", "/tmp/out");
    let contents: &[u8] = b"<svg>log-out</svg>";
    let entries = vec![dir("./dist"), file("./dist/log-out.svg", contents)];
    let (files, copies) = config.hash(&entries).unwrap();
    let expected = format!("/tmp/out/log-out.{}.svg", token(contents));
    assert_eq!(files.get("./dist/log-out.svg").unwrap(), &expected);
    assert_eq!(copies.len(), 1);
    assert_eq!(copies[0].source, "./dist/log-out.svg");
    assert_eq!(copies[0].destination, expected);
}

#[test]
fn excluded_files_keep_their_names() {
    let mut config = config("./dist", "/tmp/out");
    config.no_hash = vec![
        NoHashCategory::FilePaths(vec!["bell.svg".to_string()]),
        NoHashCategory::FileExtentions(vec!["gif".to_string()]),
    ];
    let entries = vec![
        dir("./dist"),
        file("./dist/bell.svg", b"<svg>bell</svg>"),
        file("./dist/spinner.gif", b"GIF89a"),
        file("./dist/eye.svg", b"<svg>eye</svg>"),
    ];
    assert!(config.validate(&entries).is_ok());
    let (files, copies) = config.hash(&entries).unwrap();
    // excluded by path and by extension: `{stem}.{extension}`, no token
    assert_eq!(files.get("./dist/bell.svg").unwrap(), "/tmp/out/bell.svg");
    assert_eq!(
        files.get("./dist/spinner.gif").unwrap(),
        "/tmp/out/spinner.gif"
    );
    assert!(copies
        .iter()
        .any(|c| c.source == "./dist/bell.svg" && c.destination == "/tmp/out/bell.svg"));
    // a file no rule covers is still fingerprinted
    let eye = format!("/tmp/out/eye.{}.svg", token(b"<svg>eye</svg>"));
    assert_eq!(files.get("./dist/eye.svg").unwrap(), &eye);
}

#[test]
fn prefix_prepends_and_strips_one_slash() {
    let mut config = config("./dist", "/tmp/out");
    config.prefix = Some("/test".to_string());
    let contents: &[u8] = b"<svg>log-out</svg>";
    let entries = vec![dir("./dist"), file("./dist/log-out.svg", contents)];
    let (files, copies) = config.hash(&entries).unwrap();
    let recorded = files.get("./dist/log-out.svg").unwrap();
    // the recorded destination begins with `/test/tmp/out/`, one slash
    assert_eq!(
        recorded,
        &format!("/test/tmp/out/log-out.{}.svg", token(contents))
    );
    // the bytes themselves land under the result root, without the prefix
    assert_eq!(
        copies[0].destination,
        format!("/tmp/out/log-out.{}.svg", token(contents))
    );
}

#[test]
fn mirroring_is_destructive_and_idempotent() {
    let config = config("./dist", "/tmp/out");
    let entries = dist_entries("./dist");
    let first = config.init(&entries);
    let second = config.init(&entries);
    assert_eq!(first, second);
    assert_eq!(first[0], "/tmp/out");
    assert!(first.contains(&"/tmp/out/a".to_string()));
    assert!(first.contains(&"/tmp/out/a/b/c/d/s/d/svg".to_string()));
    // only directories are mirrored
    assert_eq!(first.len(), 8);
}

#[test]
fn strict_mode_rejects_unresolved_media_type() {
    let config = config("./dist", "/tmp/out");
    let entries = vec![dir("./dist"), file("./dist/unguessable", b"??")];
    match config.hash(&entries) {
        Err(BusterError::UnresolvedMediaType(p)) => assert_eq!(p, "./dist/unguessable"),
        _ => panic!("strict mode must refuse a file with no resolvable type"),
    }
}

#[test]
fn missing_extension_is_fatal_only_in_strict_mode() {
    let mut config = config("./dist", "/tmp/out");
    // with no filter every file is processed, so naming needs the extension
    config.mime_types = None;
    let entries = vec![dir("./dist"), file("./dist/noext", b"bytes")];
    match config.hash(&entries) {
        Err(BusterError::MissingExtension(p)) => assert_eq!(p, "./dist/noext"),
        _ => panic!("strict mode must refuse fingerprinting without an extension"),
    }
    let (files, _) = config.try_hash(&entries).unwrap();
    assert!(files.map.is_empty());
}

#[test]
fn repeated_original_path_is_refused() {
    let config = config("./dist", "/tmp/out");
    let entries = vec![
        dir("./dist"),
        file("./dist/log-out.svg", b"one"),
        file("./dist/log-out.svg", b"two"),
    ];
    match config.hash(&entries) {
        Err(BusterError::DuplicateKey(p)) => assert_eq!(p, "./dist/log-out.svg"),
        _ => panic!("a repeated original path must be refused"),
    }
}

#[test]
fn copy_flag_decides_non_matching_files() {
    let mut with_copy = config("./dist", "/tmp/out");
    let entries = vec![
        dir("./dist"),
        file("./dist/notes.txt", b"plain text"),
        file("./dist/eye.svg", b"<svg>eye</svg>"),
    ];
    // copy on: the text file passes through unchanged, name intact
    let (files, copies) = with_copy.hash(&entries).unwrap();
    assert_eq!(files.get("./dist/notes.txt").unwrap(), "/tmp/out/notes.txt");
    assert!(copies.iter().any(|c| c.source == "./dist/notes.txt"));
    // copy off: the text file is skipped entirely
    with_copy.copy = false;
    let (files, copies) = with_copy.hash(&entries).unwrap();
    assert!(files.get("./dist/notes.txt").is_none());
    assert!(!copies.iter().any(|c| c.source == "./dist/notes.txt"));
    assert!(files.get("./dist/eye.svg").is_some());
}
