use quiet_stroll::{apply_transforms, discovery_result, glob_precheck, FsError, QuietPaths};

fn collection(entries: &[&str]) -> QuietPaths {
    QuietPaths::from_entries(entries.iter().map(|s| s.to_string()).collect())
}

fn entries_of(q: &QuietPaths) -> Vec<String> {
    q.paths.clone()
}

#[test]
fn pack_five_sequence() {
    let input = collection(&[
        "aaa.001.tif",
        "aaa.002.tif",
        "aaa.003.tif",
        "aaa.004.tif",
        "aaa.005.tif",
    ]);
    let packed = input.packed();
    assert_eq!(entries_of(&packed), vec!["aaa.001-005.tif".to_string()]);
    for original in ["aaa.001.tif", "aaa.002.tif", "aaa.003.tif", "aaa.004.tif", "aaa.005.tif"] {
        assert!(!packed.paths.iter().any(|p| p == original));
    }
}

#[test]
fn pack_keeps_singletons() {
    let input = collection(&["bbb.001.exr", "readme.txt"]);
    let packed = input.packed();
    assert_eq!(
        entries_of(&packed),
        vec!["bbb.001.exr".to_string(), "readme.txt".to_string()]
    );
}

#[test]
fn pack_gap_renders_comma() {
    let input = collection(&["x.001.tif", "x.002.tif", "x.003.tif", "x.005.tif"]);
    let packed = input.packed();
    assert_eq!(entries_of(&packed), vec!["x.001-003,005.tif".to_string()]);
}

#[test]
fn pack_different_widths_not_merged() {
    let input = collection(&["aaa.1.tif", "aaa.001.tif"]);
    let packed = input.packed();
    assert_eq!(
        entries_of(&packed),
        vec!["aaa.1.tif".to_string(), "aaa.001.tif".to_string()]
    );
}

#[test]
fn pack_different_directories_not_merged() {
    let input = collection(&["a/f.001.tif", "b/f.001.tif"]);
    let packed = input.packed();
    assert_eq!(
        entries_of(&packed),
        vec!["a/f.001.tif".to_string(), "b/f.001.tif".to_string()]
    );
}

#[test]
fn pack_duplicate_index_deduplicated() {
    let input = collection(&["aaa.001.tif", "aaa.001.tif", "aaa.002.tif"]);
    let packed = input.packed();
    assert_eq!(entries_of(&packed), vec!["aaa.001-002.tif".to_string()]);
}

#[test]
fn pack_is_idempotent_on_packed_output() {
    let input = collection(&[
        "shot/aaa.001.tif",
        "shot/aaa.002.tif",
        "shot/aaa.003.tif",
        "shot/bbb.001.exr",
        "shot/readme.txt",
    ]);
    let once = input.packed();
    let twice = once.packed();
    assert_eq!(entries_of(&once), entries_of(&twice));
}

#[test]
fn pack_takes_position_of_first_member() {
    let input = collection(&["aaa.001.tif", "zzz.txt", "aaa.002.tif"]);
    let packed = input.packed();
    assert_eq!(
        entries_of(&packed),
        vec!["aaa.001-002.tif".to_string(), "zzz.txt".to_string()]
    );
}

#[test]
fn pack_sorts_indices_ascending() {
    let input = collection(&["f.010.tif", "f.008.tif", "f.009.tif"]);
    let packed = input.packed();
    assert_eq!(entries_of(&packed), vec!["f.008-010.tif".to_string()]);
}

#[test]
fn pack_uses_rightmost_digit_run() {
    let input = collection(&["v2/take3.part.001.png", "v2/take3.part.002.png"]);
    let packed = input.packed();
    assert_eq!(entries_of(&packed), vec!["v2/take3.part.001-002.png".to_string()]);
}

#[test]
fn pack_ignores_digits_in_directory_names() {
    let input = collection(&["dir001/readme.txt", "dir002/readme.txt"]);
    let packed = input.packed();
    assert_eq!(
        entries_of(&packed),
        vec!["dir001/readme.txt".to_string(), "dir002/readme.txt".to_string()]
    );
}

#[test]
fn pack_leaves_oversized_digit_runs_alone() {
    let input = collection(&[
        "f.1234567890123456789.tif",
        "f.1234567890123456788.tif",
    ]);
    let packed = input.packed();
    assert_eq!(
        entries_of(&packed),
        vec![
            "f.1234567890123456789.tif".to_string(),
            "f.1234567890123456788.tif".to_string()
        ]
    );
}

#[test]
fn pack_empty_collection_is_noop() {
    let input = QuietPaths::new();
    let packed = input.packed();
    assert!(packed.paths.is_empty());
}

#[test]
fn windows_normalization_rewrites_slashes() {
    let mut q = collection(&["./samples/sub/a.txt"]);
    q.convert_windows();
    assert_eq!(entries_of(&q), vec![".\\samples\\sub\\a.txt".to_string()]);
}

#[test]
fn windows_normalization_is_noop_on_windows_paths() {
    let mut q = collection(&["C:\\samples\\a.txt"]);
    q.convert_windows();
    assert_eq!(entries_of(&q), vec!["C:\\samples\\a.txt".to_string()]);
}

#[test]
fn normalization_round_trip_restores_posix_paths() {
    let mut q = collection(&["./samples/sub/a.txt", "plain.txt"]);
    q.convert_windows();
    q.convert_posix();
    assert_eq!(
        entries_of(&q),
        vec!["./samples/sub/a.txt".to_string(), "plain.txt".to_string()]
    );
}

#[test]
fn normalization_round_trip_restores_windows_paths() {
    let mut q = collection(&["C:\\samples\\a.txt"]);
    q.convert_posix();
    q.convert_windows();
    assert_eq!(entries_of(&q), vec!["C:\\samples\\a.txt".to_string()]);
}

#[test]
fn glob_precheck_rejects_unterminated_bracket() {
    let r = glob_precheck("[abc");
    match r {
        Err(FsError::InvalidPattern(msg)) => {
            assert!(!msg.is_empty());
        },
        other => panic!("expected InvalidPattern, got {:?}", other),
    }
}

#[test]
fn glob_precheck_accepts_ordinary_patterns() {
    assert!(glob_precheck("./samples/*.tif").is_ok());
    assert!(glob_precheck("**/*.exr").is_ok());
    assert!(glob_precheck("file.[ab]").is_ok());
}

#[test]
fn discovery_result_missing_root_is_not_found() {
    let r = discovery_result(None);
    assert_eq!(r, Err(FsError::NotFound));
}

#[test]
fn discovery_result_keeps_entries_and_order() {
    let r = discovery_result(Some(vec!["b".to_string(), "a".to_string()]));
    let q = r.expect("entries should be accepted");
    assert_eq!(q.paths, vec!["b".to_string(), "a".to_string()]);
}

#[test]
fn transforms_default_to_no_change() {
    let input = collection(&["aaa.001.tif", "aaa.002.tif"]);
    let out = apply_transforms(input, None, None);
    assert_eq!(
        entries_of(&out),
        vec!["aaa.001.tif".to_string(), "aaa.002.tif".to_string()]
    );
}

#[test]
fn transforms_pack_before_windows() {
    let input = collection(&["sub/aaa.001.tif", "sub/aaa.002.tif"]);
    let out = apply_transforms(input, Some(true), Some(true));
    assert_eq!(entries_of(&out), vec!["sub\\aaa.001-002.tif".to_string()]);
}

#[test]
fn walk_results_pack_like_the_samples_tree() {
    let walked = collection(&[
        "./samples",
        "./samples/aaa.001.tif",
        "./samples/aaa.002.tif",
        "./samples/aaa.003.tif",
        "./samples/aaa.004.tif",
        "./samples/aaa.005.tif",
        "./samples/bbb.001.exr",
        "./samples/subfolder",
        "./samples/subfolder/ccc.050.exr",
    ]);
    let plain = apply_transforms(walked.clone(), Some(false), Some(false));
    assert_eq!(plain.paths.len(), 9);
    assert_eq!(plain.paths, walked.paths);
    let packed = apply_transforms(walked, Some(true), Some(false));
    assert_eq!(
        entries_of(&packed),
        vec![
            "./samples".to_string(),
            "./samples/aaa.001-005.tif".to_string(),
            "./samples/bbb.001.exr".to_string(),
            "./samples/subfolder".to_string(),
            "./samples/subfolder/ccc.050.exr".to_string(),
        ]
    );
}

#[test]
fn padding_width_is_preserved_in_ranges() {
    let input = collection(&["f.09998.tif", "f.09999.tif", "f.10000.tif"]);
    let packed = input.packed();
    assert_eq!(entries_of(&packed), vec!["f.09998-10000.tif".to_string()]);
}

#[test]
fn glob_precheck_rejects_misplaced_recursive_wildcard() {
    assert!(matches!(
        glob_precheck("a**/b"),
        Err(FsError::InvalidPattern(_))
    ));
    assert!(matches!(glob_precheck("***"), Err(FsError::InvalidPattern(_))));
}

#[test]
fn pack_keeps_empty_and_separator_only_entries() {
    let input = collection(&["", "dir/", "dir/", "a.txt"]);
    let packed = input.packed();
    assert_eq!(
        entries_of(&packed),
        vec![
            "".to_string(),
            "dir/".to_string(),
            "dir/".to_string(),
            "a.txt".to_string()
        ]
    );
}

#[test]
fn convert_windows_after_packing_keeps_range_notation() {
    let input = collection(&["seq/f.001.tif", "seq/f.002.tif", "seq/f.004.tif"]);
    let mut packed = input.packed();
    packed.convert_windows();
    assert_eq!(entries_of(&packed), vec!["seq\\f.001-002,004.tif".to_string()]);
}
