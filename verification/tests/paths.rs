use wasabio::path::{path_normalize, path_basename, path_dirname, path_split, path_canon, str_eq,
    str_starts_with, parse_filesystem_mode};
use wasabio::fs::{fs_flag_node_to_lfs, O_RDONLY, O_WRONLY, O_RDWR, O_CREAT, O_TRUNC, O_APPEND,
    O_EXCL};

#[test]
fn normalize_collapses_dots_and_slashes() {
    assert_eq!(path_normalize("/a/./b//c"), "/a/b/c".to_string());
    assert_eq!(path_normalize("/a/b/.."), "/a".to_string());
    assert_eq!(path_normalize("."), "/".to_string());
    assert_eq!(path_normalize(".."), "/".to_string());
    assert_eq!(path_normalize("/"), "/".to_string());
    assert_eq!(path_normalize(""), "/".to_string());
    assert_eq!(path_normalize("a/b"), "a/b".to_string());
    assert_eq!(path_normalize("/../x"), "/x".to_string());
}

#[test]
fn canon_roots_relative_paths() {
    assert_eq!(path_canon("a/b"), "/a/b".to_string());
    assert_eq!(path_canon("/a//b/"), "/a/b".to_string());
}

#[test]
fn basename_and_dirname() {
    assert_eq!(path_basename("/a/b/c"), "c".to_string());
    assert_eq!(path_basename("/a/"), "".to_string());
    assert_eq!(path_dirname("/a/b/c"), "/a/b".to_string());
    assert_eq!(path_dirname("/a"), "/".to_string());
    assert_eq!(path_dirname("/"), "/".to_string());
}

#[test]
fn split_yields_the_prefix_chain() {
    assert_eq!(
        path_split("/a/b/c"),
        vec!["/a".to_string(), "/a/b".to_string(), "/a/b/c".to_string()]
    );
    assert_eq!(path_split("/"), Vec::<String>::new());
}

#[test]
fn string_helpers() {
    assert!(str_eq("abc", "abc"));
    assert!(!str_eq("abc", "abd"));
    assert!(str_starts_with("/proc/self/fd/3", "/proc/self/fd/"));
    assert!(!str_starts_with("/proc", "/proc/self/fd/"));
}

#[test]
fn open_mode_table() {
    assert_eq!(fs_flag_node_to_lfs(None), O_RDONLY);
    assert_eq!(fs_flag_node_to_lfs(Some("r")), O_RDONLY);
    assert_eq!(fs_flag_node_to_lfs(Some("r+")), O_RDWR);
    assert_eq!(fs_flag_node_to_lfs(Some("w")), O_WRONLY | O_CREAT | O_TRUNC);
    assert_eq!(fs_flag_node_to_lfs(Some("wx")), O_WRONLY | O_CREAT | O_TRUNC | O_EXCL);
    assert_eq!(fs_flag_node_to_lfs(Some("w+")), O_RDWR | O_CREAT | O_TRUNC);
    assert_eq!(fs_flag_node_to_lfs(Some("a")), O_WRONLY | O_APPEND | O_CREAT);
    assert_eq!(fs_flag_node_to_lfs(Some("ax+")), O_RDWR | O_APPEND | O_CREAT | O_EXCL);
    assert_eq!(fs_flag_node_to_lfs(Some("zz")), O_RDONLY);
}

#[test]
fn mode_strings_parse_in_their_radix() {
    assert_eq!(parse_filesystem_mode("0o755"), Some(0o755));
    assert_eq!(parse_filesystem_mode("0x1ff"), Some(0o777));
    assert_eq!(parse_filesystem_mode("0b111"), Some(7));
    assert_eq!(parse_filesystem_mode("644"), Some(0o644));
    assert_eq!(parse_filesystem_mode("9z"), None);
    assert_eq!(parse_filesystem_mode(""), None);
    assert_eq!(parse_filesystem_mode("0o99999999999999"), None);
}
