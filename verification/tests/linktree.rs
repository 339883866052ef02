use linktree::builder::{
    check_link_pair, is_path_accepted, run, Action, Config, Entry, LinkCheck, LinkType, Target,
};
use linktree::glob::{build_globs, is_leaf_glob, is_path_glob, is_separator, GlobError};
use linktree::path::{get_relative, LexPath, Part};

fn path(absolute: bool, parts: &[&str]) -> LexPath {
    LexPath {
        absolute,
        parts: parts
            .iter()
            .map(|s| match *s {
                "." => Part::CurDir,
                ".." => Part::ParentDir,
                other => Part::Normal(other.to_string()),
            })
            .collect(),
    }
}

fn abs(parts: &[&str]) -> LexPath {
    path(true, parts)
}

fn rel(parts: &[&str]) -> LexPath {
    path(false, parts)
}

fn config(link_root: LexPath) -> Config {
    Config {
        link_root,
        depth: 255,
        link_type: LinkType::Symbolic,
        overwrite: false,
        fail_fast: false,
        quiet: false,
        no_tree: false,
        combine: false,
        purge: false,
    }
}

fn links_of(plan: &[Action]) -> Vec<(String, String)> {
    plan.iter()
        .filter_map(|a| match a {
            Action::CreateLink { original, link } => Some((link.render(), original.render())),
            _ => None,
        })
        .collect()
}

fn ensures_of(plan: &[Action]) -> Vec<String> {
    plan.iter()
        .filter_map(|a| match a {
            Action::EnsureDir { dir } => Some(dir.render()),
            _ => None,
        })
        .collect()
}

#[test]
fn separator_is_forward_slash() {
    assert!(is_separator('/'));
    assert!(!is_separator('\\'));
    assert!(!is_separator('a'));
}

#[test]
fn glob_classification_by_separator() {
    assert!(is_path_glob("sub/*.log"));
    assert!(is_path_glob("/x"));
    assert!(!is_path_glob("*.log"));
    assert!(is_leaf_glob("*.log"));
    assert!(!is_leaf_glob("sub/*.log"));
}

#[test]
fn relative_of_equal_paths_is_empty() {
    let r = get_relative(&abs(&["a", "b"]), &abs(&["a", "b"])).unwrap();
    assert!(!r.absolute);
    assert_eq!(r.parts.len(), 0);
}

#[test]
fn relative_descends_below_base() {
    let r = get_relative(&abs(&["a", "b", "c"]), &abs(&["a"])).unwrap();
    assert_eq!(r.render(), "b/c");
}

#[test]
fn relative_ascends_past_divergence() {
    let r = get_relative(&abs(&["a", "b", "c"]), &abs(&["a", "d"])).unwrap();
    assert_eq!(r.render(), "../b/c");
}

#[test]
fn relative_ascends_once_per_extra_base_component() {
    let r = get_relative(&abs(&["a"]), &abs(&["a", "b", "c"])).unwrap();
    assert_eq!(r.render(), "../..");
}

#[test]
fn relative_to_empty_base_is_the_path_itself() {
    let r = get_relative(&rel(&["a", "b"]), &rel(&[])).unwrap();
    assert_eq!(r.render(), "a/b");
}

#[test]
fn relative_of_mismatched_absoluteness_is_none() {
    assert!(get_relative(&abs(&["a"]), &rel(&["a"])).is_none());
    assert!(get_relative(&rel(&["a"]), &abs(&["a"])).is_none());
}

#[test]
fn relative_fails_on_parent_marker_in_base() {
    assert!(get_relative(&rel(&["a", "b"]), &rel(&["a", "..", "c"])).is_none());
}

#[test]
fn relative_skips_current_marker_in_base() {
    let r = get_relative(&rel(&["a", "b"]), &rel(&["a", ".", "c"])).unwrap();
    assert_eq!(r.render(), "b/..");
}

#[test]
fn join_and_render() {
    let j = abs(&["out"]).join(&rel(&["src", "a.txt"]));
    assert_eq!(j.render(), "/out/src/a.txt");
    assert_eq!(rel(&["x"]).render(), "x");
    assert_eq!(abs(&[]).render(), "/");
}

#[test]
fn leaf_and_parent() {
    let p = abs(&["a", "b.txt"]);
    assert_eq!(p.leaf().unwrap(), "b.txt");
    assert_eq!(p.parent().render(), "/a");
    assert!(rel(&["a", ".."]).leaf().is_none());
}

#[test]
fn leaf_glob_matches_leaf_anywhere() {
    let built = build_globs(&vec!["*.log".to_string()]).unwrap();
    assert!(built.rejected.is_empty());
    assert!(built.globs.is_match(&rel(&["sub", "b.log"])));
    assert!(built.globs.is_match(&rel(&["b.log"])));
    assert!(!built.globs.is_match(&rel(&["sub", "a.txt"])));
}

#[test]
fn leaf_glob_never_matches_intermediate_segment() {
    let built = build_globs(&vec!["sub".to_string()]).unwrap();
    assert!(!built.globs.is_match(&rel(&["sub", "a.txt"])));
    assert!(built.globs.is_match(&rel(&["deep", "sub"])));
}

#[test]
fn path_glob_needs_full_relative_match() {
    let built = build_globs(&vec!["sub/*.log".to_string()]).unwrap();
    assert!(built.globs.is_match(&rel(&["sub", "b.log"])));
    // the leaf alone would match the pattern's tail, the full path does not
    assert!(!built.globs.is_match(&rel(&["other", "b.log"])));
    assert!(!built.globs.is_match(&rel(&["b.log"])));
}

#[test]
fn path_glob_wildcard_stays_within_one_directory() {
    let built = build_globs(&vec!["*/b.log".to_string()]).unwrap();
    assert!(built.globs.is_match(&rel(&["sub", "b.log"])));
    assert!(!built.globs.is_match(&rel(&["sub", "deep", "b.log"])));
}

#[test]
fn path_glob_leading_separator_is_stripped() {
    let built = build_globs(&vec!["/sub/*.log".to_string()]).unwrap();
    assert!(built.globs.is_match(&rel(&["sub", "b.log"])));
}

#[test]
fn invalid_glob_is_dropped_with_warning() {
    let built = build_globs(&vec!["[".to_string(), "*.log".to_string()]).unwrap();
    assert_eq!(built.rejected, vec!["[".to_string()]);
    assert!(built.globs.is_match(&rel(&["b.log"])));
}

#[test]
fn all_invalid_globs_fail_construction() {
    match build_globs(&vec!["[".to_string(), "a[".to_string()]) {
        Err(GlobError::AllInvalid { rejected }) => {
            assert_eq!(rejected, vec!["[".to_string(), "a[".to_string()]);
        }
        _ => panic!("expected construction to fail when every pattern is invalid"),
    }
}

#[test]
fn link_pair_checks_absoluteness_and_distinctness() {
    assert_eq!(
        check_link_pair(&abs(&["data", "f"]), &abs(&["out", "f"])),
        LinkCheck::Creatable
    );
    assert_eq!(
        check_link_pair(&abs(&["out", "f"]), &abs(&["out", "f"])),
        LinkCheck::PointsToItself
    );
    assert_eq!(
        check_link_pair(&rel(&["data", "f"]), &abs(&["out", "f"])),
        LinkCheck::NotAbsolute
    );
    assert_eq!(
        check_link_pair(&abs(&["data", "f"]), &rel(&["out", "f"])),
        LinkCheck::NotAbsolute
    );
}

#[test]
fn no_filter_accepts_everything() {
    assert!(is_path_accepted(&rel(&["anything", "x"]), &None));
}

fn two_file_dir_target() -> Target {
    Target::Dir {
        path: abs(&["src"]),
        entries: vec![
            Entry { rel: rel(&[]), is_file: false },
            Entry { rel: rel(&["a.txt"]), is_file: true },
            Entry { rel: rel(&["sub"]), is_file: false },
            Entry { rel: rel(&["sub", "b.log"]), is_file: true },
        ],
    }
}

#[test]
fn default_layout_keeps_tree_under_named_subfolder() {
    let cfg = config(abs(&["out"]));
    let plan = run(&cfg, &vec![two_file_dir_target()], &None);
    assert_eq!(
        links_of(&plan),
        vec![
            ("/out/src/a.txt".to_string(), "/src/a.txt".to_string()),
            ("/out/src/sub/b.log".to_string(), "/src/sub/b.log".to_string()),
        ]
    );
    assert_eq!(ensures_of(&plan), vec!["/out/src".to_string(), "/out/src/sub".to_string()]);
}

#[test]
fn combine_drops_the_named_subfolder() {
    let mut cfg = config(abs(&["out"]));
    cfg.combine = true;
    let plan = run(&cfg, &vec![two_file_dir_target()], &None);
    assert_eq!(
        links_of(&plan),
        vec![
            ("/out/a.txt".to_string(), "/src/a.txt".to_string()),
            ("/out/sub/b.log".to_string(), "/src/sub/b.log".to_string()),
        ]
    );
}

#[test]
fn no_tree_flattens_to_leaf_names() {
    let mut cfg = config(abs(&["out"]));
    cfg.no_tree = true;
    let plan = run(&cfg, &vec![two_file_dir_target()], &None);
    assert_eq!(
        links_of(&plan),
        vec![
            ("/out/src/a.txt".to_string(), "/src/a.txt".to_string()),
            ("/out/src/b.log".to_string(), "/src/sub/b.log".to_string()),
        ]
    );
}

#[test]
fn leaf_filter_keeps_only_matching_files() {
    let cfg = config(abs(&["out"]));
    let built = build_globs(&vec!["*.log".to_string()]).unwrap();
    let plan = run(&cfg, &vec![two_file_dir_target()], &Some(built.globs));
    assert_eq!(
        links_of(&plan),
        vec![("/out/src/sub/b.log".to_string(), "/src/sub/b.log".to_string())]
    );
}

#[test]
fn depth_zero_visits_only_immediate_children() {
    let mut cfg = config(abs(&["out"]));
    cfg.depth = 0;
    let plan = run(&cfg, &vec![two_file_dir_target()], &None);
    assert_eq!(
        links_of(&plan),
        vec![("/out/src/a.txt".to_string(), "/src/a.txt".to_string())]
    );
}

#[test]
fn file_target_links_under_root_by_its_name() {
    let cfg = config(abs(&["out"]));
    let plan = run(&cfg, &vec![Target::File { path: abs(&["data", "f.bin"]) }], &None);
    assert_eq!(ensures_of(&plan), vec!["/out".to_string()]);
    assert_eq!(
        links_of(&plan),
        vec![("/out/f.bin".to_string(), "/data/f.bin".to_string())]
    );
}

#[test]
fn nameless_directory_target_shares_the_destination_root() {
    let cfg = config(abs(&["out"]));
    let t = Target::Dir {
        path: abs(&[]),
        entries: vec![Entry { rel: rel(&["a.txt"]), is_file: true }],
    };
    let plan = run(&cfg, &vec![t], &None);
    assert_eq!(
        links_of(&plan),
        vec![("/out/a.txt".to_string(), "/a.txt".to_string())]
    );
}

#[test]
fn other_targets_are_silently_skipped() {
    let cfg = config(abs(&["out"]));
    let plan = run(&cfg, &vec![Target::Other], &None);
    assert!(plan.is_empty());
}

#[test]
fn purge_erases_root_once_before_everything() {
    let mut cfg = config(abs(&["out"]));
    cfg.purge = true;
    let targets = vec![
        Target::File { path: abs(&["data", "f.bin"]) },
        Target::File { path: abs(&["data", "g.bin"]) },
    ];
    let plan = run(&cfg, &targets, &None);
    assert!(matches!(&plan[0], Action::EraseRoot { root } if root.render() == "/out"));
    let erases = plan
        .iter()
        .filter(|a| matches!(a, Action::EraseRoot { .. }))
        .count();
    assert_eq!(erases, 1);
}

#[test]
fn ensured_directories_are_memoized() {
    let cfg = config(abs(&["out"]));
    let targets = vec![
        Target::File { path: abs(&["data", "f.bin"]) },
        Target::File { path: abs(&["data", "g.bin"]) },
    ];
    let plan = run(&cfg, &targets, &None);
    assert_eq!(ensures_of(&plan), vec!["/out".to_string()]);
    assert_eq!(links_of(&plan).len(), 2);
}

#[test]
fn rebuilding_from_unchanged_sources_plans_identically() {
    let mut cfg = config(abs(&["out"]));
    cfg.overwrite = true;
    let targets = vec![two_file_dir_target()];
    let first = run(&cfg, &targets, &None);
    let second = run(&cfg, &targets, &None);
    assert_eq!(links_of(&first), links_of(&second));
    assert_eq!(ensures_of(&first), ensures_of(&second));
    assert_eq!(first.len(), second.len());
}

#[test]
fn plan_still_links_existing_destination_without_overwrite() {
    // whether the destination already exists is the executor's concern: the
    // plan carries the entry either way, and without fail-fast a failure of
    // one entry leaves the rest of the run intact
    let cfg = config(abs(&["out"]));
    assert!(!cfg.fail_fast);
    assert!(!cfg.overwrite);
    let plan = run(&cfg, &vec![two_file_dir_target()], &None);
    assert_eq!(links_of(&plan).len(), 2);
}
