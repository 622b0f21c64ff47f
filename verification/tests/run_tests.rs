use backup_tool::archive::{copy_files_to_zip, warning, Archive, Content, Outcome, SourceFile};
use backup_tool::config::{get_config, Config, Loaded};
use backup_tool::crawl::{get_all_input_paths, unreadable_warning, Kind, Node, Snapshot};
use backup_tool::name::{timestamp_name, Timestamp};

fn file(path: &str) -> Node {
    Node { path: String::from(path), kind: Kind::File }
}

fn read(path: &str, bytes: &[u8]) -> SourceFile {
    SourceFile {
        path: String::from(path),
        absolute: Some(String::from(path)),
        content: Some(Content { bytes: bytes.to_vec(), complete: true }),
    }
}

fn unpack(bytes: Vec<u8>) -> Vec<(String, Vec<u8>)> {
    let mut archive = zip::ZipArchive::new(std::io::Cursor::new(bytes)).unwrap();
    let mut entries = Vec::new();
    for index in 0..archive.len() {
        let mut entry = archive.by_index(index).unwrap();
        let mut data = Vec::new();
        std::io::Read::read_to_end(&mut entry, &mut data).unwrap();
        entries.push((String::from(entry.name()), data));
    }
    entries
}

fn backup(config: &Config, snapshot: &Snapshot, contents: &[(&str, &[u8])]) -> Vec<(String, Vec<u8>)> {
    let found = get_all_input_paths(config, snapshot);
    let files: Vec<SourceFile> = found
        .files
        .iter()
        .map(|path| match contents.iter().find(|(name, _)| *name == path.as_str()) {
            Some((name, bytes)) => read(name, bytes),
            None => SourceFile { path: path.clone(), absolute: None, content: None },
        })
        .collect();
    let mut archive = Archive::new();
    copy_files_to_zip(&mut archive, &files);
    unpack(archive.finish().unwrap())
}

#[test]
fn single_file_is_archived_under_its_path_without_the_root() {
    let config = get_config(Loaded::Parsed(Config {
        input_paths: vec![String::from("/tmp/a.txt")],
        output_path: String::from("/tmp/out"),
    }))
    .ok()
    .unwrap();
    let snapshot = Snapshot { roots: vec![file("/tmp/a.txt")] };
    let entries = backup(&config, &snapshot, &[("/tmp/a.txt", b"hello")]);
    assert_eq!(entries, vec![(String::from("tmp/a.txt"), b"hello".to_vec())]);
}

#[test]
fn directory_with_a_subdirectory_is_archived_file_by_file() {
    let config = Config {
        input_paths: vec![String::from("/tmp/d")],
        output_path: String::from("/tmp/out"),
    };
    let snapshot = Snapshot {
        roots: vec![Node {
            path: String::from("/tmp/d"),
            kind: Kind::Directory(vec![
                file("/tmp/d/x.txt"),
                Node {
                    path: String::from("/tmp/d/sub"),
                    kind: Kind::Directory(vec![file("/tmp/d/sub/y.txt")]),
                },
            ]),
        }],
    };
    let entries =
        backup(&config, &snapshot, &[("/tmp/d/x.txt", b"x"), ("/tmp/d/sub/y.txt", b"y")]);
    assert_eq!(
        entries,
        vec![
            (String::from("tmp/d/x.txt"), b"x".to_vec()),
            (String::from("tmp/d/sub/y.txt"), b"y".to_vec()),
        ]
    );
}

#[test]
fn missing_input_is_left_out_and_the_run_goes_on() {
    let config = Config {
        input_paths: vec![String::from("/tmp/nothing"), String::from("/tmp/a.txt")],
        output_path: String::from("/tmp/out"),
    };
    let snapshot = Snapshot {
        roots: vec![
            Node { path: String::from("/tmp/nothing"), kind: Kind::Other },
            file("/tmp/a.txt"),
        ],
    };
    let found = get_all_input_paths(&config, &snapshot);
    assert_eq!(found.files, vec![String::from("/tmp/a.txt")]);
    assert!(found.unreadable.is_empty());
    let entries = backup(&config, &snapshot, &[("/tmp/a.txt", b"kept")]);
    assert_eq!(entries, vec![(String::from("tmp/a.txt"), b"kept".to_vec())]);
}

#[test]
fn malformed_configuration_ends_the_run_before_any_archive() {
    let text = "{\"input_paths\": [\"/tmp/a.txt\"], \"output_path\": ";
    let error = serde_json::from_str::<serde_json::Value>(text).err().unwrap();
    let result = get_config(Loaded::Malformed(error.to_string()));
    assert!(result.is_err());
    assert!(result.err().unwrap().message().starts_with("Config parsing failed.\n"));
}

#[test]
fn regular_file_inputs_make_one_entry_each() {
    let config = Config {
        input_paths: vec![String::from("/a/1"), String::from("/b/2"), String::from("/c/3")],
        output_path: String::from("/out"),
    };
    let snapshot = Snapshot { roots: vec![file("/a/1"), file("/b/2"), file("/c/3")] };
    let entries =
        backup(&config, &snapshot, &[("/a/1", b"one"), ("/b/2", b"two"), ("/c/3", b"three")]);
    assert_eq!(
        entries,
        vec![
            (String::from("a/1"), b"one".to_vec()),
            (String::from("b/2"), b"two".to_vec()),
            (String::from("c/3"), b"three".to_vec()),
        ]
    );
}

#[test]
fn flat_directory_makes_as_many_entries_as_it_has_files() {
    let config = Config { input_paths: vec![String::from("/d")], output_path: String::from("/o") };
    let contents: [(&str, &[u8]); 4] =
        [("/d/1", b"1"), ("/d/2", b"22"), ("/d/3", b"333"), ("/d/4", b"4444")];
    let ascending = Snapshot {
        roots: vec![Node {
            path: String::from("/d"),
            kind: Kind::Directory(vec![file("/d/1"), file("/d/2"), file("/d/3"), file("/d/4")]),
        }],
    };
    let shuffled = Snapshot {
        roots: vec![Node {
            path: String::from("/d"),
            kind: Kind::Directory(vec![file("/d/3"), file("/d/1"), file("/d/4"), file("/d/2")]),
        }],
    };
    let mut first = backup(&config, &ascending, &contents);
    let mut second = backup(&config, &shuffled, &contents);
    assert_eq!(first.len(), 4);
    assert_eq!(second.len(), 4);
    first.sort();
    second.sort();
    assert_eq!(first, second);
}

#[test]
fn two_runs_differ_only_in_the_name_of_the_archive() {
    let config = Config {
        input_paths: vec![String::from("/a"), String::from("/b")],
        output_path: String::from("/out"),
    };
    let snapshot = Snapshot { roots: vec![file("/a"), file("/b")] };
    let contents: [(&str, &[u8]); 2] = [("/a", b"alpha"), ("/b", b"beta")];
    let first = backup(&config, &snapshot, &contents);
    let second = backup(&config, &snapshot, &contents);
    assert_eq!(first, second);
    let morning = Timestamp { year: 2024, month: 6, day: 1, hour: 8, minute: 30 };
    let later = Timestamp { year: 2024, month: 6, day: 1, hour: 8, minute: 31 };
    assert_ne!(timestamp_name(&morning), timestamp_name(&later));
    assert_eq!(timestamp_name(&morning), timestamp_name(&morning));
}

#[test]
fn input_listed_twice_is_archived_twice() {
    let config = Config {
        input_paths: vec![String::from("/tmp/a.txt"), String::from("/tmp/a.txt")],
        output_path: String::from("/out"),
    };
    let snapshot = Snapshot { roots: vec![file("/tmp/a.txt")] };
    let found = get_all_input_paths(&config, &snapshot);
    let files: Vec<SourceFile> = found.files.iter().map(|path| read(path, b"twice")).collect();
    let mut archive = Archive::new();
    let outcomes = copy_files_to_zip(&mut archive, &files);
    assert_eq!(outcomes, vec![Outcome::Copied, Outcome::Copied]);
    let entries = unpack(archive.finish().unwrap());
    assert_eq!(
        entries,
        vec![
            (String::from("tmp/a.txt"), b"twice".to_vec()),
            (String::from("tmp/a.txt"), b"twice".to_vec()),
        ]
    );
}

#[test]
fn warnings_of_a_run_come_in_the_order_of_the_work() {
    let config = Config {
        input_paths: vec![String::from("/locked"), String::from("/f"), String::from("/g")],
        output_path: String::from("/out"),
    };
    let snapshot = Snapshot {
        roots: vec![
            Node { path: String::from("/locked"), kind: Kind::Unreadable },
            file("/f"),
            file("/g"),
        ],
    };
    let found = get_all_input_paths(&config, &snapshot);
    let crawl_warnings: Vec<String> =
        found.unreadable.iter().map(|path| unreadable_warning(path)).collect();
    assert_eq!(crawl_warnings, vec![String::from("WARNING: Unable to read directory /locked")]);
    let files = vec![
        SourceFile { path: String::from("/f"), absolute: None, content: None },
        read("/g", b"g"),
    ];
    let mut archive = Archive::new();
    let outcomes = copy_files_to_zip(&mut archive, &files);
    let mut copy_warnings = Vec::new();
    for (file, outcome) in files.iter().zip(outcomes.iter()) {
        if let Some(text) = warning(file, *outcome) {
            copy_warnings.push(text);
        }
    }
    assert_eq!(copy_warnings, vec![String::from("Unable to extract absolute path of /f")]);
    assert_eq!(unpack(archive.finish().unwrap()), vec![(String::from("g"), b"g".to_vec())]);
}
