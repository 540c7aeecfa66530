use srcrr::paths::{join_path, select_roots, split_srcpath, RootStatus};
use srcrr::search::{find, list_projects, load_all_projects, scan_root, Entry, RootDir};
use srcrr::shell::{fzf_command, shell_fragment};

fn root(path: &str, names: &[(&str, bool)]) -> RootDir {
    RootDir {
        path: String::from(path),
        entries: names
            .iter()
            .map(|(n, d)| Entry { name: String::from(*n), is_dir: *d })
            .collect(),
    }
}

fn status(path: &str, exists: bool) -> RootStatus {
    RootStatus { path: String::from(path), exists }
}

#[test]
fn split_plain_list() {
    let parts = split_srcpath("/a:/b");
    assert_eq!(parts, vec!["/a".to_string(), "/b".to_string()]);
}

#[test]
fn split_empty_string_is_one_empty_piece() {
    assert_eq!(split_srcpath(""), vec![String::new()]);
}

#[test]
fn split_keeps_empty_pieces() {
    assert_eq!(
        split_srcpath("a::b:"),
        vec!["a".to_string(), "".to_string(), "b".to_string(), "".to_string()]
    );
}

#[test]
fn split_single_entry() {
    assert_eq!(split_srcpath("/home/me/src"), vec!["/home/me/src".to_string()]);
}

#[test]
fn dirs_prints_only_existing_roots() {
    let roots = vec![status("/a", true), status("/b", false)];
    let kept = select_roots(&roots, &None);
    assert_eq!(kept, vec!["/a".to_string()]);
}

#[test]
fn prefix_restricts_to_exact_match() {
    let roots = vec![status("/a", true), status("/b", true), status("/c", true)];
    let kept = select_roots(&roots, &Some(String::from("/b")));
    assert_eq!(kept, vec!["/b".to_string()]);
}

#[test]
fn prefix_matching_nothing_leaves_no_roots() {
    let roots = vec![status("/a", true), status("/b", true)];
    let kept = select_roots(&roots, &Some(String::from("/nope")));
    assert_eq!(kept, Vec::<String>::new());
}

#[test]
fn prefix_does_not_revive_missing_root() {
    let roots = vec![status("/a", true), status("/gone", false)];
    let kept = select_roots(&roots, &Some(String::from("/gone")));
    assert_eq!(kept, Vec::<String>::new());
}

#[test]
fn list_is_sorted_across_roots() {
    let roots = vec![
        root("/r1", &[("proj2", true), ("zeta", true)]),
        root("/r2", &[("proj1", true), ("alpha", true)]),
    ];
    let names = list_projects(&roots);
    assert_eq!(
        names,
        vec![
            "alpha".to_string(),
            "proj1".to_string(),
            "proj2".to_string(),
            "zeta".to_string()
        ]
    );
}

#[test]
fn list_skips_plain_files() {
    let roots = vec![root("/r", &[("proj1", true), ("notes.txt", false), ("proj2", true)])];
    assert_eq!(list_projects(&roots), vec!["proj1".to_string(), "proj2".to_string()]);
}

#[test]
fn find_prefers_earlier_root() {
    let roots = vec![
        root("/r1", &[("proj", true)]),
        root("/r2", &[("proj", true)]),
    ];
    assert_eq!(find(&roots, &String::from("proj")), Some("/r1/proj".to_string()));
}

#[test]
fn find_reaches_second_root() {
    let roots = vec![
        root("/r1", &[("other", true)]),
        root("/r2", &[("proj", true)]),
    ];
    assert_eq!(find(&roots, &String::from("proj")), Some("/r2/proj".to_string()));
}

#[test]
fn find_without_match_is_none() {
    let roots = vec![root("/r1", &[("other", true)]), root("/r2", &[])];
    assert_eq!(find(&roots, &String::from("proj")), None);
}

#[test]
fn find_ignores_plain_file_of_the_name() {
    let roots = vec![root("/r", &[("proj", false)])];
    assert_eq!(find(&roots, &String::from("proj")), None);
}

#[test]
fn scan_root_lists_directory_children() {
    let r = root("/r", &[("a", true), ("f", false), ("b", true)]);
    assert_eq!(scan_root(&r, None), vec!["/r/a".to_string(), "/r/b".to_string()]);
}

#[test]
fn scan_root_finds_single_target() {
    let r = root("/r", &[("a", true), ("b", true)]);
    assert_eq!(scan_root(&r, Some(&String::from("b"))), vec!["/r/b".to_string()]);
    assert_eq!(scan_root(&r, Some(&String::from("c"))), Vec::<String>::new());
}

#[test]
fn load_all_projects_keeps_root_order() {
    let roots = vec![
        root("/r1", &[("b", true)]),
        root("/r2", &[("a", true), ("c", true)]),
    ];
    assert_eq!(
        load_all_projects(&roots),
        vec!["/r1/b".to_string(), "/r2/a".to_string(), "/r2/c".to_string()]
    );
}

#[test]
fn join_inserts_separator() {
    assert_eq!(join_path("/a", "p"), "/a/p".to_string());
}

#[test]
fn join_keeps_existing_separator() {
    assert_eq!(join_path("/a/", "p"), "/a/p".to_string());
}

#[test]
fn fragment_is_exact() {
    assert_eq!(
        shell_fragment("/r2/proj"),
        "cd /r2/proj;\nfor i in  /etc/srcrrrc $HOME/.srcrrrc .srcrrrc ;\ndo\n\ttest -f $i && . $i ;\ndone\n"
            .to_string()
    );
}

#[test]
fn fzf_command_invokes_tool_twice() {
    assert_eq!(
        fzf_command("srcrr"),
        "eval $(srcrr $(srcrr -l | fzf))".to_string()
    );
}
