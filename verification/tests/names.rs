use xyi::download::{file_name_from_content_disposition, file_name_from_url};
use xyi::path::relative_dir;

#[test]
fn relative_dir_strips_the_source_root() {
    let parent = String::from("/data/src/a/b");
    let root = "/data/src";
    assert_eq!(relative_dir(&parent, root), "a/b");
}

#[test]
fn relative_dir_ignores_trailing_separator_on_root() {
    let parent = String::from("/data/src/a");
    let root = "/data/src/";
    assert_eq!(relative_dir(&parent, root), "a");
}

#[test]
fn relative_dir_is_empty_for_files_in_the_root() {
    let parent = String::from("/data/src");
    let root = "/data/src";
    assert_eq!(relative_dir(&parent, root), "");
}

#[test]
fn relative_dir_falls_back_when_not_under_root() {
    let parent = String::from("/somewhere/else");
    let root = "/data/src";
    assert_eq!(relative_dir(&parent, root), "/somewhere/else");
}

#[test]
fn file_name_from_plain_url() {
    assert_eq!(
        file_name_from_url("https://example.com/file.zip"),
        "file.zip"
    );
}

#[test]
fn file_name_from_url_with_trailing_slash() {
    assert_eq!(
        file_name_from_url("https://example.com/path/archive.tar.gz/"),
        "archive.tar.gz"
    );
}

#[test]
fn file_name_from_url_without_path() {
    assert_eq!(file_name_from_url("https://example.com"), "example.com");
}

#[test]
fn content_disposition_with_filename() {
    assert_eq!(
        file_name_from_content_disposition("attachment; filename=\"report.pdf\""),
        Some("report.pdf".to_string())
    );
}

#[test]
fn content_disposition_without_quotes() {
    assert_eq!(
        file_name_from_content_disposition("attachment; filename=report.pdf"),
        Some("report.pdf".to_string())
    );
}

#[test]
fn content_disposition_without_filename() {
    assert_eq!(file_name_from_content_disposition("inline"), None);
}
