use runfast::runner::Runner;
use runfast::runnercache::{CacheEntry, RunnerCache};

fn runner(name: &str, cmd: &str, quit_fast: bool) -> Runner {
    Runner { name: name.to_string(), cmd: cmd.to_string(), quit_fast }
}

fn entry(path: &str, name: &str, cmd: &str) -> CacheEntry {
    CacheEntry { path: path.to_string(), runner: runner(name, cmd, false) }
}

#[test]
fn put_then_get_returns_inserted_runner() {
    let mut cache = RunnerCache::reset_cache();
    let dir = "/home/someone/project".to_string();
    cache.add_runner(dir.clone(), &runner("build", "make", true));
    let got = cache.try_get_runner(&dir).unwrap();
    assert_eq!(got.name, "build");
    assert_eq!(got.cmd, "make");
    assert!(got.quit_fast);
}

#[test]
fn second_put_replaces_entirely() {
    let mut cache = RunnerCache::reset_cache();
    let dir = "/tmp/work".to_string();
    cache.add_runner(dir.clone(), &runner("old", "old cmd", true));
    cache.add_runner(dir.clone(), &runner("new", "new cmd", false));
    assert_eq!(cache.len(), 1);
    let got = cache.try_get_runner(&dir).unwrap();
    assert_eq!(got.name, "new");
    assert_eq!(got.cmd, "new cmd");
    assert!(!got.quit_fast);
}

#[test]
fn get_unknown_directory_is_none() {
    let mut cache = RunnerCache::reset_cache();
    cache.add_runner("/a".to_string(), &runner("r", "c", false));
    assert!(cache.try_get_runner(&"/b".to_string()).is_none());
}

#[test]
fn clean_removes_flagged_entries_and_counts_them() {
    let entries = vec![
        entry("/alive/one", "r1", "c1"),
        entry("/dead/one", "r2", "c2"),
        entry("/alive/two", "r3", "c3"),
        entry("/dead/two", "r4", "c4"),
    ];
    let mut cache = RunnerCache::load(true, Some(entries)).unwrap();
    assert_eq!(cache.len(), 4);
    // The caller flags each entry with whether its directory still exists.
    let keep = vec![true, false, true, false];
    let removed = cache.clean_cache(&keep);
    assert_eq!(removed, 2);
    assert_eq!(cache.len(), 2);
    assert!(cache.try_get_runner(&"/alive/one".to_string()).is_some());
    assert!(cache.try_get_runner(&"/alive/two".to_string()).is_some());
    assert!(cache.try_get_runner(&"/dead/one".to_string()).is_none());
    assert!(cache.try_get_runner(&"/dead/two".to_string()).is_none());
}

#[test]
fn clean_on_all_alive_removes_nothing() {
    let mut cache = RunnerCache::reset_cache();
    cache.add_runner("/a".to_string(), &runner("r", "c", false));
    let removed = cache.clean_cache(&vec![true]);
    assert_eq!(removed, 0);
    assert_eq!(cache.len(), 1);
}

#[test]
fn reset_yields_cache_that_loads_empty() {
    let cache = RunnerCache::reset_cache();
    assert_eq!(cache.len(), 0);
    assert_eq!(cache.paths().len(), 0);
    // A reset store serializes to a file with no entries; loading such a file
    // parses successfully into a present, empty cache.
    let loaded = RunnerCache::load(true, Some(vec![]));
    assert!(loaded.is_some());
    assert_eq!(loaded.unwrap().len(), 0);
}

#[test]
fn missing_file_loads_as_present_empty_cache() {
    let loaded = RunnerCache::load(false, None);
    assert!(loaded.is_some());
    assert_eq!(loaded.unwrap().len(), 0);
}

#[test]
fn corrupt_file_loads_as_no_cache_distinct_from_empty() {
    // The file exists but did not parse: no cache at all, a state the caller
    // can tell apart from a present empty cache, so it suppresses writes.
    let corrupt = RunnerCache::load(true, None);
    assert!(corrupt.is_none());
    let empty = RunnerCache::load(true, Some(vec![]));
    assert!(empty.is_some());
}

#[test]
fn duplicate_path_in_parsed_file_keeps_last_entry() {
    let entries = vec![entry("/p", "first", "c1"), entry("/p", "second", "c2")];
    let cache = RunnerCache::load(true, Some(entries)).unwrap();
    assert_eq!(cache.len(), 1);
    assert_eq!(cache.try_get_runner(&"/p".to_string()).unwrap().name, "second");
}

#[test]
fn paths_lists_remembered_directories_in_order() {
    let mut cache = RunnerCache::reset_cache();
    cache.add_runner("/one".to_string(), &runner("a", "c", false));
    cache.add_runner("/two".to_string(), &runner("b", "c", false));
    let ps = cache.paths();
    assert_eq!(ps, vec!["/one".to_string(), "/two".to_string()]);
}
