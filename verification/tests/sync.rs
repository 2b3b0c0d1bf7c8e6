use ssher::sync::{changed_file_paths, clipboard_text, parse_itemized_file, rsync_args};

#[test]
fn extracts_regular_file_paths_gnu_rsync_format() {
    assert_eq!(parse_itemized_file(">f+++++++++ dir/new.txt"), Some("dir/new.txt"));
    assert_eq!(parse_itemized_file(">f.st...... existing.txt"), Some("existing.txt"));
}

#[test]
fn extracts_regular_file_paths_openrsync_format() {
    assert_eq!(
        parse_itemized_file(">f+++++++ classifier_gt_eval_threaded.jsonl"),
        Some("classifier_gt_eval_threaded.jsonl")
    );
}

#[test]
fn ignores_directories_and_non_itemized_lines() {
    assert_eq!(parse_itemized_file("cd+++++++++ dir/"), None);
    assert_eq!(parse_itemized_file("sending incremental file list"), None);
    assert_eq!(parse_itemized_file("       1,234 100%   12.34kB/s    0:00:00"), None);
}

#[test]
fn itemized_edge_cases() {
    assert_eq!(parse_itemized_file("<f "), None);
    assert_eq!(parse_itemized_file("f "), None);
    assert_eq!(parse_itemized_file(">f"), None);
    assert_eq!(parse_itemized_file("*f name with spaces"), Some("name with spaces"));
    assert_eq!(parse_itemized_file("hf x"), Some("x"));
    assert_eq!(parse_itemized_file(">L+++++++++ link"), None);
}

#[test]
fn rsync_args_push_and_pull() {
    let push = rsync_args("box", "/tmp/data", "/srv/data", "push", false);
    assert_eq!(push, vec!["-avz", "--itemize-changes", "--progress", "/tmp/data/", "box:/srv/data"]);
    let pull = rsync_args("box", "/tmp/data/", "/srv/data", "pull", true);
    assert_eq!(pull, vec!["-avz", "--itemize-changes", "--progress", "--delete", "box:/srv/data", "/tmp/data/"]);
}

#[test]
fn changed_paths_are_absolute_and_joined() {
    let files = vec!["a.txt".to_string(), "dir/b.txt".to_string()];
    assert_eq!(changed_file_paths("/home/me/proj//", &files), vec!["/home/me/proj/a.txt", "/home/me/proj/dir/b.txt"]);
    assert_eq!(clipboard_text("/home/me/proj", &files).as_deref(), Some("/home/me/proj/a.txt\n/home/me/proj/dir/b.txt"));
    assert_eq!(clipboard_text("/x", &vec![]), None);
}
