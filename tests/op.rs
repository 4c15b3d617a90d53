use nix_cache::collector::Dependencies;
use nix_cache::log::NixInternalLog;
use nix_cache::op::Op;

fn create_log(msg: &str) -> NixInternalLog {
    NixInternalLog::Msg {
        msg: msg.to_string(),
        raw_msg: None,
        level: 1,
    }
}

fn evaluated(source: &str) -> Op {
    Op::EvaluatedFile {
        source: source.to_string(),
    }
}

#[test]
fn test_copied_source() {
    let log = create_log("copied source '/path/to/source' -> '/path/to/target'");
    let op = Op::from_internal_log(&log);
    assert_eq!(
        op,
        Some(Op::CopiedSource {
            source: "/path/to/source".to_string(),
            target: "/path/to/target".to_string(),
        })
    );
}

#[test]
fn test_evaluated_file() {
    let log = create_log("evaluating file '/path/to/file'");
    let op = Op::from_internal_log(&log);
    assert_eq!(op, Some(evaluated("/path/to/file")));
}

#[test]
fn test_read_file() {
    let log = create_log("trace: devenv readFile: '/path/to/file'");
    let op = Op::from_internal_log(&log);
    assert_eq!(
        op,
        Some(Op::ReadFile {
            source: "/path/to/file".to_string(),
        })
    );
}

#[test]
fn test_tracked_path() {
    let log = create_log("trace: devenv path: '/path/to/file'");
    let op = Op::from_internal_log(&log);
    assert_eq!(
        op,
        Some(Op::TrackedPath {
            source: "/path/to/file".to_string(),
        })
    );
}

#[test]
fn test_unmatched_log() {
    let log = create_log("some unrelated message");
    let op = Op::from_internal_log(&log);
    assert_eq!(op, None);
}

#[test]
fn test_non_msg_log() {
    let log = NixInternalLog::Stop { id: 1 };
    let op = Op::from_internal_log(&log);
    assert_eq!(op, None);
}

#[test]
fn every_variant_reads_back_from_its_message() {
    let ops = vec![
        Op::CopiedSource {
            source: "/src/a b".to_string(),
            target: "/nix/store/abc-a".to_string(),
        },
        evaluated("/a/default.nix"),
        Op::ReadFile {
            source: "/a/data.json".to_string(),
        },
        Op::TrackedPath {
            source: "".to_string(),
        },
    ];
    for op in ops {
        let msg = op.to_message();
        assert_eq!(Op::from_message(&msg), Some(op));
    }
}

#[test]
fn messages_are_rendered_exactly() {
    let op = Op::CopiedSource {
        source: "/s".to_string(),
        target: "/t".to_string(),
    };
    assert_eq!(op.to_message(), "copied source '/s' -> '/t'");
    assert_eq!(
        Op::ReadFile {
            source: "/r".to_string()
        }
        .to_message(),
        "trace: devenv readFile: '/r'"
    );
}

#[test]
fn copy_source_takes_the_longest_split() {
    let msg = "copied source 'a' -> 'b' -> 'c'".to_string();
    assert_eq!(
        Op::from_message(&msg),
        Some(Op::CopiedSource {
            source: "a' -> 'b".to_string(),
            target: "c".to_string(),
        })
    );
}

#[test]
fn near_misses_report_nothing() {
    for msg in [
        "",
        "'",
        "evaluating file '",
        "evaluating file '/a",
        "evaluating file '/a'\n",
        "evaluating file '/a\n/b'",
        "copied source '/a'",
        " evaluating file '/a'",
        "trace: devenv readfile: '/a'",
        "trace: devenv path '/a'",
    ] {
        assert_eq!(Op::from_message(&msg.to_string()), None, "{:?}", msg);
    }
}

#[test]
fn empty_quoted_path_is_recognised() {
    assert_eq!(
        Op::from_message(&"evaluating file ''".to_string()),
        Some(evaluated(""))
    );
}

#[test]
fn other_record_kinds_report_nothing() {
    let start = NixInternalLog::Start {
        id: 4,
        level: 0,
        text: "evaluating file '/a'".to_string(),
        parent: 0,
    };
    assert_eq!(Op::from_internal_log(&start), None);
    let phase = NixInternalLog::SetPhase {
        phase: "build".to_string(),
    };
    assert_eq!(Op::from_internal_log(&phase), None);
}

#[test]
fn evaluated_directory_stands_for_its_default_file() {
    let op = Op::from_internal_log(&create_log("evaluating file '/'"));
    assert_eq!(op, Some(evaluated("/default.nix")));
}

#[test]
fn resolve_directory_pushes_the_default_file() {
    assert_eq!(
        evaluated("/a").resolve_directory(true),
        evaluated("/a/default.nix")
    );
    assert_eq!(
        evaluated("/a/").resolve_directory(true),
        evaluated("/a/default.nix")
    );
    assert_eq!(evaluated("/a").resolve_directory(false), evaluated("/a"));
    let read = Op::ReadFile {
        source: "/a".to_string(),
    };
    assert_eq!(read.clone().resolve_directory(true), read);
}

#[test]
fn same_record_twice_is_held_once() {
    let mut deps = Dependencies::new();
    let log = create_log("trace: devenv readFile: '/a/data.json'");
    deps.observe(&log);
    deps.observe(&log);
    assert_eq!(deps.len(), 1);
    assert!(deps.contains(&Op::ReadFile {
        source: "/a/data.json".to_string()
    }));
}

#[test]
fn record_says_whether_it_added() {
    let mut deps = Dependencies::new();
    assert!(deps.record(evaluated("/x")));
    assert!(!deps.record(evaluated("/x")));
    assert!(deps.record(Op::ReadFile {
        source: "/x".to_string()
    }));
    assert_eq!(deps.len(), 2);
}

#[test]
fn unrelated_records_are_dropped() {
    let mut deps = Dependencies::new();
    deps.observe(&create_log("building '/nix/store/x.drv'"));
    deps.observe(&NixInternalLog::Stop { id: 2 });
    assert_eq!(deps.len(), 0);
}

#[test]
fn order_of_operations_does_not_matter() {
    let a = evaluated("/a");
    let b = Op::ReadFile {
        source: "/b".to_string(),
    };
    let c = Op::TrackedPath {
        source: "/c".to_string(),
    };
    let one = Dependencies::from_ops(vec![a.clone(), b.clone(), c.clone(), a.clone()]);
    let two = Dependencies::from_ops(vec![c.clone(), a.clone(), a.clone(), b.clone()]);
    assert_eq!(one.len(), 3);
    assert_eq!(two.len(), 3);
    for op in [&a, &b, &c] {
        assert!(one.contains(op));
        assert!(two.contains(op));
    }
}

#[test]
fn tracked_paths_are_the_sources() {
    let deps = Dependencies::from_ops(vec![
        Op::CopiedSource {
            source: "/s".to_string(),
            target: "/nix/store/t".to_string(),
        },
        evaluated("/e"),
    ]);
    let mut paths = deps.tracked_paths();
    paths.sort();
    assert_eq!(paths, vec!["/e".to_string(), "/s".to_string()]);
}
