use minishell::resolver::candidate_paths;
use minishell::resolver::first_match;
use minishell::resolver::split_char;
use minishell::resolver::ResolutionCache;

#[test]
fn split_keeps_empty_pieces() {
    assert_eq!(split_char("a:b::c", ':'), vec!["a", "b", "", "c"]);
    assert_eq!(split_char("", ':'), vec![""]);
    assert_eq!(split_char(":", ':'), vec!["", ""]);
}

#[test]
fn candidates_follow_path_order() {
    assert_eq!(candidate_paths("/usr/bin:/bin", "ls"), vec!["/usr/bin/ls", "/bin/ls"]);
}

#[test]
fn empty_path_entry_gives_root_candidate() {
    assert_eq!(candidate_paths("", "ls"), vec!["/ls"]);
    assert_eq!(candidate_paths("/a:", "x"), vec!["/a/x", "/x"]);
}

#[test]
fn first_match_picks_earliest_hit() {
    assert_eq!(first_match(&vec![false, true, true]), Some(1));
    assert_eq!(first_match(&vec![true, false]), Some(0));
}

#[test]
fn first_match_reports_no_hit() {
    assert_eq!(first_match(&vec![false, false]), None);
    assert_eq!(first_match(&Vec::new()), None);
}

#[test]
fn cache_misses_then_hits() {
    let mut cache = ResolutionCache::new();
    assert!(cache.lookup("ls").is_none());
    cache.record("ls", String::from("/usr/bin/ls"));
    assert_eq!(cache.lookup("ls").unwrap(), "/usr/bin/ls");
}

#[test]
fn cached_path_is_stable() {
    // Once recorded, a lookup returns the same path without re-scanning
    // PATH, even after other names are recorded.
    let mut cache = ResolutionCache::new();
    cache.record("ls", String::from("/usr/bin/ls"));
    cache.record("cat", String::from("/bin/cat"));
    assert_eq!(cache.lookup("ls").unwrap(), "/usr/bin/ls");
    assert_eq!(cache.lookup("cat").unwrap(), "/bin/cat");
    assert!(cache.lookup("rm").is_none());
}
