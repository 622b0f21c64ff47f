use backup_tool::config::Config;
use backup_tool::crawl::{
    classify, crawl, get_all_input_paths, unreadable_warning, Kind, Node, Snapshot,
};

fn file(path: &str) -> Node {
    Node { path: String::from(path), kind: Kind::File }
}

fn directory(path: &str, entries: Vec<Node>) -> Node {
    Node { path: String::from(path), kind: Kind::Directory(entries) }
}

fn config(paths: &[&str]) -> Config {
    Config {
        input_paths: paths.iter().map(|path| String::from(*path)).collect(),
        output_path: String::from("/tmp/out"),
    }
}

#[test]
fn regular_file_is_recorded() {
    let mut results = Vec::new();
    let mut unreadable = Vec::new();
    crawl(&mut results, &mut unreadable, &file("/tmp/a.txt"));
    assert_eq!(results, vec![String::from("/tmp/a.txt")]);
    assert!(unreadable.is_empty());
}

#[test]
fn crawl_adds_behind_what_is_there() {
    let mut results = vec![String::from("/first")];
    let mut unreadable = vec![String::from("/closed")];
    crawl(&mut results, &mut unreadable, &file("/second"));
    assert_eq!(results, vec![String::from("/first"), String::from("/second")]);
    assert_eq!(unreadable, vec![String::from("/closed")]);
}

#[test]
fn missing_path_is_passed_over_in_silence() {
    let mut results = Vec::new();
    let mut unreadable = Vec::new();
    let node = Node { path: String::from("/tmp/missing"), kind: Kind::Other };
    crawl(&mut results, &mut unreadable, &node);
    assert!(results.is_empty());
    assert!(unreadable.is_empty());
}

#[test]
fn unreadable_directory_is_reported_and_skipped() {
    let mut results = Vec::new();
    let mut unreadable = Vec::new();
    let node = Node { path: String::from("/root/secret"), kind: Kind::Unreadable };
    crawl(&mut results, &mut unreadable, &node);
    assert!(results.is_empty());
    assert_eq!(unreadable, vec![String::from("/root/secret")]);
    assert_eq!(
        unreadable_warning(&unreadable[0]),
        "WARNING: Unable to read directory /root/secret"
    );
}

#[test]
fn empty_directory_yields_nothing() {
    let mut results = Vec::new();
    let mut unreadable = Vec::new();
    crawl(&mut results, &mut unreadable, &directory("/tmp/empty", Vec::new()));
    assert!(results.is_empty());
    assert!(unreadable.is_empty());
}

#[test]
fn directory_is_walked_depth_first() {
    let tree = directory(
        "/r",
        vec![
            file("/r/a"),
            directory("/r/b", vec![file("/r/b/1"), directory("/r/b/c", vec![file("/r/b/c/x")])]),
            Node { path: String::from("/r/socket"), kind: Kind::Other },
            Node { path: String::from("/r/locked"), kind: Kind::Unreadable },
            file("/r/z"),
        ],
    );
    let mut results = Vec::new();
    let mut unreadable = Vec::new();
    crawl(&mut results, &mut unreadable, &tree);
    assert_eq!(
        results,
        vec![
            String::from("/r/a"),
            String::from("/r/b/1"),
            String::from("/r/b/c/x"),
            String::from("/r/z"),
        ]
    );
    assert_eq!(unreadable, vec![String::from("/r/locked")]);
}

#[test]
fn directory_with_a_subdirectory_yields_both_files() {
    let snapshot = Snapshot {
        roots: vec![directory(
            "/tmp/d",
            vec![file("/tmp/d/x.txt"), directory("/tmp/d/sub", vec![file("/tmp/d/sub/y.txt")])],
        )],
    };
    let found = get_all_input_paths(&config(&["/tmp/d"]), &snapshot);
    assert_eq!(
        found.files,
        vec![String::from("/tmp/d/x.txt"), String::from("/tmp/d/sub/y.txt")]
    );
    assert!(found.unreadable.is_empty());
}

#[test]
fn inputs_are_walked_in_the_order_of_the_configuration() {
    let snapshot = Snapshot {
        roots: vec![file("/b"), directory("/a", vec![file("/a/1"), file("/a/2")]), file("/c")],
    };
    let found = get_all_input_paths(&config(&["/c", "/a", "/b"]), &snapshot);
    assert_eq!(
        found.files,
        vec![
            String::from("/c"),
            String::from("/a/1"),
            String::from("/a/2"),
            String::from("/b"),
        ]
    );
}

#[test]
fn regular_file_inputs_are_found_as_listed() {
    let snapshot = Snapshot { roots: vec![file("/x/1"), file("/x/2"), file("/x/3")] };
    let found = get_all_input_paths(&config(&["/x/1", "/x/2", "/x/3"]), &snapshot);
    assert_eq!(
        found.files,
        vec![String::from("/x/1"), String::from("/x/2"), String::from("/x/3")]
    );
    assert!(found.unreadable.is_empty());
}

#[test]
fn input_listed_twice_is_found_twice() {
    let snapshot = Snapshot { roots: vec![file("/tmp/a.txt")] };
    let found = get_all_input_paths(&config(&["/tmp/a.txt", "/tmp/a.txt"]), &snapshot);
    assert_eq!(found.files, vec![String::from("/tmp/a.txt"), String::from("/tmp/a.txt")]);
}

#[test]
fn missing_input_leaves_the_others() {
    let snapshot = Snapshot {
        roots: vec![
            Node { path: String::from("/tmp/nothing"), kind: Kind::Other },
            file("/tmp/a.txt"),
        ],
    };
    let found = get_all_input_paths(&config(&["/tmp/nothing", "/tmp/a.txt"]), &snapshot);
    assert_eq!(found.files, vec![String::from("/tmp/a.txt")]);
    assert!(found.unreadable.is_empty());
}

#[test]
fn input_that_was_not_looked_at_shows_nothing() {
    let snapshot = Snapshot { roots: vec![file("/tmp/a.txt")] };
    let found = get_all_input_paths(&config(&["/tmp/b.txt", "/tmp/a.txt"]), &snapshot);
    assert_eq!(found.files, vec![String::from("/tmp/a.txt")]);
}

#[test]
fn no_inputs_no_files() {
    let snapshot = Snapshot { roots: vec![file("/tmp/a.txt")] };
    let found = get_all_input_paths(&config(&[]), &snapshot);
    assert!(found.files.is_empty());
    assert!(found.unreadable.is_empty());
}

#[test]
fn lookup_takes_the_first_node_at_a_path() {
    let snapshot = Snapshot {
        roots: vec![file("/a"), directory("/b", vec![file("/b/1")]), directory("/b", Vec::new())],
    };
    let found = snapshot.lookup(&String::from("/b")).unwrap();
    assert_eq!(found.path, "/b");
    assert!(matches!(&found.kind, Kind::Directory(entries) if entries.len() == 1));
    assert!(snapshot.lookup(&String::from("/b/1")).is_none());
    assert!(snapshot.lookup(&String::from("")).is_none());
}

#[test]
fn unreadable_directories_are_collected_across_inputs() {
    let snapshot = Snapshot {
        roots: vec![
            directory(
                "/a",
                vec![Node { path: String::from("/a/locked"), kind: Kind::Unreadable }, file("/a/f")],
            ),
            Node { path: String::from("/b"), kind: Kind::Unreadable },
        ],
    };
    let found = get_all_input_paths(&config(&["/a", "/b"]), &snapshot);
    assert_eq!(found.files, vec![String::from("/a/f")]);
    assert_eq!(found.unreadable, vec![String::from("/a/locked"), String::from("/b")]);
}

#[test]
fn flat_directory_yields_as_many_files_as_it_holds() {
    let names = ["/d/1", "/d/2", "/d/3", "/d/4", "/d/5"];
    let listed: Vec<Node> = names.iter().map(|name| file(name)).collect();
    let snapshot = Snapshot { roots: vec![directory("/d", listed)] };
    let found = get_all_input_paths(&config(&["/d"]), &snapshot);
    assert_eq!(found.files.len(), 5);
}

#[test]
fn order_of_listing_changes_only_the_order_of_the_files() {
    let one = Snapshot {
        roots: vec![directory("/d", vec![file("/d/1"), file("/d/2"), file("/d/3")])],
    };
    let other = Snapshot {
        roots: vec![directory("/d", vec![file("/d/3"), file("/d/1"), file("/d/2")])],
    };
    let first = get_all_input_paths(&config(&["/d"]), &one).files;
    let second = get_all_input_paths(&config(&["/d"]), &other).files;
    assert_eq!(first, vec![String::from("/d/1"), String::from("/d/2"), String::from("/d/3")]);
    assert_eq!(second, vec![String::from("/d/3"), String::from("/d/1"), String::from("/d/2")]);
    let mut sorted_first = first.clone();
    let mut sorted_second = second.clone();
    sorted_first.sort();
    sorted_second.sort();
    assert_eq!(sorted_first, sorted_second);
}

#[test]
fn warning_for_an_unreadable_directory_names_it() {
    assert_eq!(unreadable_warning("/var/lib/x"), "WARNING: Unable to read directory /var/lib/x");
    assert_eq!(unreadable_warning(""), "WARNING: Unable to read directory ");
}

#[test]
fn regular_file_is_a_file_whatever_else_is_said() {
    assert!(matches!(classify(true, false, None), Kind::File));
    assert!(matches!(classify(true, true, Some(vec![file("/x")])), Kind::File));
}

#[test]
fn listed_directory_keeps_its_entries_in_order() {
    let kind = classify(false, true, Some(vec![file("/d/b"), file("/d/a")]));
    match kind {
        Kind::Directory(entries) => {
            assert_eq!(entries.len(), 2);
            assert_eq!(entries[0].path, "/d/b");
            assert_eq!(entries[1].path, "/d/a");
        },
        _ => panic!("a listed directory is a directory"),
    }
}

#[test]
fn directory_without_a_listing_is_unreadable() {
    assert!(matches!(classify(false, true, None), Kind::Unreadable));
}

#[test]
fn neither_file_nor_directory_is_passed_over() {
    assert!(matches!(classify(false, false, None), Kind::Other));
    assert!(matches!(classify(false, false, Some(Vec::new())), Kind::Other));
}

#[test]
fn entry_that_could_not_be_handed_out_is_passed_over() {
    let tree = directory(
        "/d",
        vec![file("/d/a"), Node { path: String::new(), kind: Kind::Unknown }, file("/d/b")],
    );
    let mut results = Vec::new();
    let mut unreadable = Vec::new();
    crawl(&mut results, &mut unreadable, &tree);
    assert_eq!(results, vec![String::from("/d/a"), String::from("/d/b")]);
    assert!(unreadable.is_empty());
}
