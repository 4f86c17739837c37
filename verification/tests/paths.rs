use quran_asr_api::state::{
    file_name, job_dir, job_input_path, job_request_path, job_result_path, join_path, sanitize_upload_filename,
};
use quran_asr_api::versions::{
    find_last_named, find_newest, resolve_latest_assets_dir, resolve_v2_assets_dir, wants_alignment, AssetsDirError,
    DirEntry,
};

#[test]
fn sanitize_keeps_plain_names() {
    assert_eq!(sanitize_upload_filename("recitation.m4a"), "recitation.m4a");
    assert_eq!(sanitize_upload_filename("  spaced.wav  "), "spaced.wav");
}

#[test]
fn sanitize_strips_traversal() {
    assert_eq!(sanitize_upload_filename("../../etc/passwd"), "passwd");
    assert_eq!(sanitize_upload_filename("/abs/path/foo.mp3"), "foo.mp3");
    assert_eq!(sanitize_upload_filename("a/b/c.ogg"), "c.ogg");
}

#[test]
fn sanitize_falls_back_on_dangerous_or_empty() {
    for bad in ["", "..", ".", "/", "../", "   "] {
        assert_eq!(sanitize_upload_filename(bad), "upload.bin", "input: {bad:?}");
    }
}

#[test]
fn job_input_path_stays_within_job_dir() {
    let data_dir = "/data";
    let p = job_input_path(data_dir, "job123", "../../escape.m4a");
    assert_eq!(p, "/data/jobs/job123/input/escape.m4a");
    // No `..` components survive into the constructed path.
    assert!(!p.split('/').any(|c| c == ".."));
}

#[test]
fn names_follow_the_paths_of_the_system() {
    for path in ["a/b/", "a/./", "./a", "a/..", "/", "a//b//", "x/.hidden", "a/b/.", "..a", "a/...", " / "] {
        let wanted = std::path::Path::new(path).file_name().and_then(|s| s.to_str()).map(|s| s.to_string());
        assert_eq!(file_name(path), wanted, "path: {path:?}");
    }
}

#[test]
fn joins_follow_the_paths_of_the_system() {
    for dir in ["", "/", "/data", "/data/", "rel"] {
        for rest in ["", "x", "/abs", "a/b"] {
            let wanted = std::path::Path::new(dir).join(rest);
            assert_eq!(join_path(dir, rest), wanted.to_str().unwrap(), "{dir:?} {rest:?}");
        }
    }
}

#[test]
fn sanitizing_twice_changes_nothing() {
    for name in ["../../etc/passwd", " a b ", "..", "x/ .. ", "plain"] {
        let once = sanitize_upload_filename(name);
        assert_eq!(sanitize_upload_filename(&once), once);
        assert!(!once.contains('/') && !once.is_empty() && once != "." && once != "..");
    }
    assert_eq!(sanitize_upload_filename("x/ .. "), "upload.bin");
}

#[test]
fn job_files_lie_in_the_job_dir() {
    assert_eq!(job_dir("/data", "j"), "/data/jobs/j");
    assert_eq!(job_request_path("/data", "j"), "/data/jobs/j/request.json");
    assert_eq!(job_result_path("/data/", "j"), "/data/jobs/j/result.json");
}

fn entry(name: &str, is_dir: bool, has_meta: bool, modified_ns: u128) -> DirEntry {
    DirEntry { name: name.to_string(), is_dir, has_meta, modified_ns }
}

#[test]
fn newest_version_was_modified_last() {
    let entries = vec![
        entry("v9", true, true, 100),
        entry("v10", true, true, 300),
        entry("v8", true, true, 200),
        entry("v11", true, false, 400),
        entry("v12", false, true, 500),
    ];
    assert_eq!(find_newest(&entries), Some("v10".to_string()));
    assert_eq!(resolve_v2_assets_dir("/v2", false, true, &entries), Some("/v2/v10".to_string()));
    assert_eq!(resolve_v2_assets_dir("/v2", true, true, &entries), Some("/v2".to_string()));
}

#[test]
fn latest_version_has_the_greatest_name() {
    let entries = vec![
        entry("v10", true, true, 300),
        entry("v9", true, true, 100),
        entry("v8", true, true, 200),
        entry("va", true, false, 400),
        entry("vb", false, true, 500),
    ];
    assert_eq!(find_last_named(&entries), Some("v9".to_string()));
    assert_eq!(find_newest(&entries), Some("v10".to_string()));
    assert_eq!(resolve_latest_assets_dir("/v2", false, true, &entries), Ok("/v2/v9".to_string()));
    assert_eq!(resolve_latest_assets_dir("/v2", true, true, &entries), Ok("/v2".to_string()));
}

#[test]
fn names_decide_between_versions_of_one_time() {
    let entries = vec![
        entry("2024-01", true, true, 7),
        entry("2024-03", true, true, 7),
        entry("2024-02", true, true, 7),
        entry("2024-04", true, true, 6),
    ];
    assert_eq!(find_newest(&entries), Some("2024-03".to_string()));
}

#[test]
fn missing_versions_are_told_apart() {
    assert_eq!(resolve_latest_assets_dir("/v2", false, false, &[]), Err(AssetsDirError::NotFound));
    assert_eq!(resolve_latest_assets_dir("/v2", false, true, &[]), Err(AssetsDirError::NoVersions));
    assert_eq!(resolve_v2_assets_dir("/v2", false, true, &[]), None);
    assert!(wants_alignment("v2") && wants_alignment("auto") && !wants_alignment("off"));
}
