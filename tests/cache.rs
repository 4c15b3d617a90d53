use nix_cache::cache::{CachedOutput, CommandIdentity, Fingerprint, ResultCache};
use nix_cache::collector::Dependencies;
use nix_cache::log::NixInternalLog;
use nix_cache::runner::CommandOptions;
use std::collections::HashMap;

fn id(args: &[&str]) -> CommandIdentity {
    CommandIdentity {
        program: "nix".to_string(),
        args: args.iter().map(|a| a.to_string()).collect(),
        env: vec![],
    }
}

fn output(text: &str, status: i32) -> CachedOutput {
    CachedOutput {
        stdout: text.as_bytes().to_vec(),
        stderr: vec![],
        status,
    }
}

fn present(size: u64, digest: u64) -> Fingerprint {
    Fingerprint::Present {
        size,
        modified: 1_700_000_000,
        digest,
    }
}

fn paths(p: &[&str]) -> Vec<String> {
    p.iter().map(|s| s.to_string()).collect()
}

#[test]
fn lookup_right_after_store_gives_the_output() {
    let mut cache = ResultCache::new();
    let fps = vec![present(3, 11), present(5, 12)];
    cache.store(id(&["eval"]), output("42", 0), paths(&["/a", "/b"]), fps.clone());
    let got = cache.lookup_and_validate(&id(&["eval"]), &fps).unwrap();
    assert_eq!(got.stdout, b"42".to_vec());
    assert_eq!(got.status, 0);
}

#[test]
fn changed_dependency_invalidates() {
    let mut cache = ResultCache::new();
    cache.store(
        id(&["eval"]),
        output("42", 0),
        paths(&["/a", "/b"]),
        vec![present(3, 11), present(5, 12)],
    );
    let now = vec![present(3, 11), present(5, 99)];
    assert!(cache.lookup_and_validate(&id(&["eval"]), &now).is_none());
}

#[test]
fn deleted_dependency_invalidates() {
    let mut cache = ResultCache::new();
    cache.store(id(&["eval"]), output("42", 0), paths(&["/p"]), vec![present(3, 11)]);
    let now = vec![Fingerprint::Absent];
    assert!(cache.lookup_and_validate(&id(&["eval"]), &now).is_none());
}

#[test]
fn fingerprint_count_must_match() {
    let mut cache = ResultCache::new();
    cache.store(id(&["eval"]), output("42", 0), paths(&["/p"]), vec![present(3, 11)]);
    assert!(cache.lookup_and_validate(&id(&["eval"]), &vec![]).is_none());
}

#[test]
fn argument_order_is_part_of_the_key() {
    let mut cache = ResultCache::new();
    cache.store(id(&["a", "b"]), output("ab", 0), vec![], vec![]);
    assert!(cache.lookup_and_validate(&id(&["b", "a"]), &vec![]).is_none());
    assert!(cache.lookup_and_validate(&id(&["a", "b"]), &vec![]).is_some());
    assert!(cache.dependency_paths(&id(&["b", "a"])).is_none());
}

#[test]
fn store_replaces_the_whole_entry() {
    let mut cache = ResultCache::new();
    cache.store(id(&["x"]), output("old", 0), paths(&["/a"]), vec![present(1, 1)]);
    cache.store(id(&["x"]), output("new", 0), paths(&["/b", "/c"]), vec![present(2, 2), Fingerprint::Absent]);
    assert_eq!(cache.dependency_paths(&id(&["x"])), Some(paths(&["/b", "/c"])));
    assert!(cache.lookup_and_validate(&id(&["x"]), &vec![present(1, 1)]).is_none());
    let got = cache
        .lookup_and_validate(&id(&["x"]), &vec![present(2, 2), Fingerprint::Absent])
        .unwrap();
    assert_eq!(got.stdout, b"new".to_vec());
}

#[test]
fn identity_carries_the_relevant_environment() {
    let options = CommandOptions {
        cache_env: vec!["HOME".to_string(), "NIX_PATH".to_string()],
        cache_failures: false,
    };
    let one = options.identity(
        "nix".to_string(),
        paths(&["eval"]),
        vec![Some("/root".to_string()), None],
    );
    assert_eq!(one.env, vec![("HOME".to_string(), Some("/root".to_string())), ("NIX_PATH".to_string(), None)]);
    let two = options.identity(
        "nix".to_string(),
        paths(&["eval"]),
        vec![Some("/home".to_string()), None],
    );
    assert!(!one.same_as(&two));
    let three = options.identity(
        "nix".to_string(),
        paths(&["eval"]),
        vec![Some("/root".to_string()), None],
    );
    assert!(one.same_as(&three));
}

#[test]
fn failed_runs_are_stored_only_when_allowed() {
    let mut cache = ResultCache::new();
    let default = CommandOptions::default();
    assert!(default.cache_env.is_empty());
    assert!(!default.may_store(1));
    assert!(default.may_store(0));
    assert!(!cache.record_run(&default, id(&["f"]), &output("e", 1), vec![], vec![]));
    assert!(cache.lookup_and_validate(&id(&["f"]), &vec![]).is_none());
    let lenient = CommandOptions {
        cache_env: vec![],
        cache_failures: true,
    };
    assert!(cache.record_run(&lenient, id(&["f"]), &output("e", 1), vec![], vec![]));
    assert_eq!(cache.lookup_and_validate(&id(&["f"]), &vec![]).unwrap().status, 1);
}

struct FakeWorld {
    files: HashMap<String, u64>,
    spawns: u32,
}

impl FakeWorld {
    fn fingerprint(&self, path: &str) -> Fingerprint {
        match self.files.get(path) {
            Some(d) => present(1, *d),
            None => Fingerprint::Absent,
        }
    }

    fn spawn(&mut self) -> (CachedOutput, Vec<NixInternalLog>) {
        self.spawns += 1;
        let log = |m: &str| NixInternalLog::Msg {
            msg: m.to_string(),
            raw_msg: None,
            level: 3,
        };
        (
            output("{ processes = { }; }", 0),
            vec![
                log("evaluating file '/a/default.nix'"),
                NixInternalLog::Stop { id: 7 },
                log("trace: devenv readFile: '/a/data.json'"),
            ],
        )
    }

    fn run(&mut self, cache: &mut ResultCache, options: &CommandOptions) -> CachedOutput {
        let key = options.identity("nix".to_string(), paths(&["eval", ".#devenv.processes"]), vec![]);
        if let Some(deps) = cache.dependency_paths(&key) {
            let now: Vec<Fingerprint> = deps.iter().map(|p| self.fingerprint(p)).collect();
            if let Some(out) = cache.lookup_and_validate(&key, &now) {
                return out;
            }
        }
        let (out, logs) = self.spawn();
        let mut deps = Dependencies::new();
        for l in &logs {
            deps.observe(l);
        }
        let watched = deps.tracked_paths();
        let fps: Vec<Fingerprint> = watched.iter().map(|p| self.fingerprint(p)).collect();
        cache.record_run(options, key, &out, watched, fps);
        out
    }
}

#[test]
fn second_run_replays_without_spawning() {
    let mut world = FakeWorld {
        files: HashMap::from([
            ("/a/default.nix".to_string(), 1),
            ("/a/data.json".to_string(), 2),
        ]),
        spawns: 0,
    };
    let mut cache = ResultCache::new();
    let options = CommandOptions::default();
    let first = world.run(&mut cache, &options);
    assert_eq!(world.spawns, 1);
    let key = options.identity("nix".to_string(), paths(&["eval", ".#devenv.processes"]), vec![]);
    let mut stored = cache.dependency_paths(&key).unwrap();
    stored.sort();
    assert_eq!(stored, paths(&["/a/data.json", "/a/default.nix"]));
    let second = world.run(&mut cache, &options);
    assert_eq!(world.spawns, 1);
    assert_eq!(first.stdout, second.stdout);
    world.files.insert("/a/data.json".to_string(), 3);
    world.run(&mut cache, &options);
    assert_eq!(world.spawns, 2);
}
