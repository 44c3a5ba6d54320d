use std::collections::{HashMap, HashSet};

use chunk_duplicate::duplicate::{Action, Duplication, Entry, Outcome};

fn entry(name: &str, is_file: bool) -> Entry {
    Entry { name: name.to_string(), is_file }
}

/// A directory held in memory, with names whose removal or recreation fails.
struct Dir {
    files: HashMap<String, Vec<u8>>,
    locked: HashSet<String>,
    no_create: HashSet<String>,
}

impl Dir {
    fn new(files: &[(&str, &[u8])]) -> Dir {
        Dir {
            files: files.iter().map(|(n, b)| (n.to_string(), b.to_vec())).collect(),
            locked: HashSet::new(),
            no_create: HashSet::new(),
        }
    }

    fn run(&mut self, listing: &[&str], source: &str) -> Duplication {
        let entries: Vec<Entry> = listing.iter().map(|n| entry(n, true)).collect();
        let mut run = Duplication::new(&entries, source);
        let mut steps = 0;
        loop {
            let ok = match run.next_action() {
                Action::Finished => break,
                Action::Remove(i) => {
                    let name = run.name(i).clone();
                    if self.locked.contains(&name) {
                        false
                    } else {
                        self.files.remove(&name).is_some()
                    }
                }
                Action::Recreate(i) => {
                    let name = run.name(i).clone();
                    if self.no_create.contains(&name) {
                        false
                    } else {
                        let bytes = self.files[source].clone();
                        self.files.insert(name, bytes);
                        true
                    }
                }
            };
            run.record(ok);
            steps += 1;
            assert!(steps <= 2 * run.len());
        }
        run
    }
}

#[test]
fn three_regions_all_replaced() {
    let mut dir = Dir::new(&[
        ("r.0.0.mca", b"AAAA"),
        ("r.1.0.mca", b"BBBB"),
        ("r.-1.0.mca", b"CCCC"),
    ]);
    let run = dir.run(&["r.0.0.mca", "r.1.0.mca", "r.-1.0.mca"], "r.0.0.mca");
    assert_eq!(dir.files["r.1.0.mca"], b"AAAA");
    assert_eq!(dir.files["r.-1.0.mca"], b"AAAA");
    assert_eq!(dir.files["r.0.0.mca"], b"AAAA");
    assert_eq!(run.success(), 2);
    assert_eq!(run.failure(), 0);
    assert_eq!(run.tally_line(), "Success 2, Failure 0.");
}

#[test]
fn locked_region_is_kept_and_run_goes_on() {
    let mut dir = Dir::new(&[
        ("r.0.0.mca", b"AAAA"),
        ("r.1.0.mca", b"BBBB"),
        ("r.-1.0.mca", b"CCCC"),
    ]);
    dir.locked.insert("r.1.0.mca".to_string());
    let run = dir.run(&["r.1.0.mca", "r.0.0.mca", "r.-1.0.mca"], "r.0.0.mca");
    assert_eq!(dir.files["r.1.0.mca"], b"BBBB");
    assert_eq!(dir.files["r.-1.0.mca"], b"AAAA");
    assert_eq!(run.outcome(0), Outcome::RemoveFailed);
    assert_eq!(run.outcome(1), Outcome::Replaced);
    assert_eq!(run.failure(), 1);
    assert_eq!(run.success(), 1);
    assert_eq!(run.tally_line(), "Success 1, Failure 1.");
}

#[test]
fn failed_recreation_leaves_sibling_absent() {
    let mut dir = Dir::new(&[("r.0.0.mca", b"AAAA"), ("r.5.5.mca", b"BBBB"), ("level.dat", b"L")]);
    dir.no_create.insert("r.5.5.mca".to_string());
    let run = dir.run(&["r.5.5.mca", "level.dat", "r.0.0.mca"], "r.0.0.mca");
    assert!(!dir.files.contains_key("r.5.5.mca"));
    assert_eq!(dir.files["level.dat"], b"AAAA");
    assert_eq!(run.outcome(0), Outcome::RecreateFailed);
    assert_eq!(run.success() + run.failure(), run.len());
    assert_eq!(run.tally_line(), "Success 1, Failure 1.");
}

#[test]
fn siblings_exclude_source_and_non_files() {
    let entries = vec![
        entry("r.0.0.mca", true),
        entry("sub", false),
        entry("r.2.3.mca", true),
        entry("notes.txt", true),
    ];
    let run = Duplication::new(&entries, "r.0.0.mca");
    assert_eq!(run.len(), 2);
    assert_eq!(run.name(0), "r.2.3.mca");
    assert_eq!(run.name(1), "notes.txt");
}

#[test]
fn actions_follow_remove_then_recreate() {
    let entries = vec![entry("a", true), entry("b", true)];
    let mut run = Duplication::new(&entries, "src");
    assert_eq!(run.next_action(), Action::Remove(0));
    run.record(true);
    assert_eq!(run.next_action(), Action::Recreate(0));
    run.record(true);
    assert_eq!(run.next_action(), Action::Remove(1));
    run.record(false);
    assert_eq!(run.next_action(), Action::Finished);
    assert!(run.is_finished());
    run.record(true);
    assert_eq!(run.next_action(), Action::Finished);
    assert_eq!(run.success(), 1);
    assert_eq!(run.failure(), 1);
}

#[test]
fn empty_directory_finishes_at_once() {
    let entries = vec![entry("r.0.0.mca", true)];
    let run = Duplication::new(&entries, "r.0.0.mca");
    assert_eq!(run.len(), 0);
    assert_eq!(run.next_action(), Action::Finished);
    assert_eq!(run.tally_line(), "Success 0, Failure 0.");
}

#[test]
fn source_untouched_and_others_kept_whatever_fails() {
    let mut dir = Dir::new(&[("r.0.0.mca", b"SRC"), ("a", b"1"), ("b", b"2"), ("c", b"3")]);
    dir.locked.insert("a".to_string());
    dir.no_create.insert("b".to_string());
    let run = dir.run(&["a", "b", "c", "r.0.0.mca"], "r.0.0.mca");
    assert_eq!(dir.files["r.0.0.mca"], b"SRC");
    assert_eq!(dir.files["a"], b"1");
    assert!(!dir.files.contains_key("b"));
    assert_eq!(dir.files["c"], b"SRC");
    assert_eq!(run.success() + run.failure(), 3);
    assert_eq!(run.tally_line(), "Success 1, Failure 2.");
}

#[test]
fn large_tally_line() {
    let names: Vec<String> = (0..12).map(|i| format!("r.{}.0.mca", i)).collect();
    let entries: Vec<Entry> = names.iter().map(|n| entry(n, true)).collect();
    let mut run = Duplication::new(&entries, "r.0.0.mca");
    while run.next_action() != Action::Finished {
        run.record(true);
    }
    assert_eq!(run.tally_line(), "Success 11, Failure 0.");
}
