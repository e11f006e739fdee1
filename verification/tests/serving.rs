use xyi::download::file_name_from_content_disposition;
use xyi::peek::peek_report;
use xyi::serve::{
    archive_name, dir_request, download_path, listen_address, path_from_decoded, server_banner,
    state_message, temp_zip_file_name, zip_content_disposition, zip_entry_plan, Base64Error,
    DirRequest, DownloadPathError, EntryKind, Utf8Failure, ZipEntryPlan,
};
use xyi::wscat::message_screen;

#[test]
fn download_links_hold_base64_paths() {
    assert_eq!(download_path("L2RhdGEvYS50eHQ="), Ok("/data/a.txt".to_string()));
    assert_eq!(download_path(""), Ok("".to_string()));
    let e = download_path("L2RhdGEvYS50eHQ").unwrap_err();
    assert_eq!(e, DownloadPathError::Base64(Base64Error::InvalidPadding));
    assert_eq!(e.text(), "Format not correct: Invalid padding");
    let e = download_path("a$==").unwrap_err();
    assert_eq!(e.text(), "Format not correct: Invalid byte 36, offset 1.");
    let e = download_path("/w==").unwrap_err();
    match e {
        DownloadPathError::Utf8(f) => {
            assert_eq!(f.valid_up_to, 0);
            assert_eq!(e.text(), "Format not correct: invalid utf-8 sequence of 1 bytes from index 0");
        }
        _ => panic!("expected a UTF-8 failure"),
    }
}

#[test]
fn decoded_bytes_must_be_utf8() {
    assert_eq!(path_from_decoded(Ok(b"abc".to_vec())), Ok("abc".to_string()));
    assert_eq!(
        path_from_decoded(Err(Base64Error::InvalidLength)).unwrap_err().text(),
        "Format not correct: Encoded text cannot have a 6-bit remainder."
    );
    let e = path_from_decoded(Ok(vec![b'a', 0xe2, 0x82])).unwrap_err();
    assert_eq!(e, DownloadPathError::Utf8(Utf8Failure { valid_up_to: 1, error_len: None }));
    assert_eq!(e.text(), "Format not correct: incomplete utf-8 byte sequence from index 1");
    assert_eq!(
        DownloadPathError::Base64(Base64Error::InvalidLastSymbol(3, 66)).text(),
        "Format not correct: Invalid last symbol 66, offset 3."
    );
}

#[test]
fn directory_requests() {
    match dir_request("/a/b", "change_dir", "/c") {
        DirRequest::Switch(d) => assert_eq!(d, "/c"),
        _ => panic!(),
    }
    match dir_request("/a/b", "up_dir", "") {
        DirRequest::Switch(d) => assert_eq!(d, "/a"),
        _ => panic!(),
    }
    assert!(matches!(dir_request("/", "up_dir", ""), DirRequest::NoParent));
    assert!(matches!(dir_request("/a", "other", "/c"), DirRequest::Ignore));
}

#[test]
fn archives_are_named_after_the_directory() {
    assert_eq!(archive_name("/home/user/music"), "music");
    assert_eq!(archive_name("/"), "root");
    assert_eq!(archive_name("."), "root");
    assert_eq!(archive_name("/home/user/"), "user");
    assert_eq!(
        zip_content_disposition("music"),
        "attachment; filename=\"music.zip\""
    );
    assert_eq!(temp_zip_file_name(42, 1000), "xyi-serve-42-1000.zip");
}

#[test]
fn the_downloader_reads_back_the_archive_name() {
    for name in ["music", "root", "a b", " spaced ", "x.tar", "a; b"] {
        assert_eq!(
            file_name_from_content_disposition(&zip_content_disposition(name)),
            Some(format!("{}.zip", name))
        );
    }
}

#[test]
fn zip_entries_use_forward_slashes() {
    match zip_entry_plan("a\\b\\c.txt", EntryKind::File) {
        ZipEntryPlan::File(n) => assert_eq!(n, "a/b/c.txt"),
        _ => panic!(),
    }
    match zip_entry_plan("a/b", EntryKind::Directory) {
        ZipEntryPlan::Directory(n) => assert_eq!(n, "a/b/"),
        _ => panic!(),
    }
    assert!(matches!(zip_entry_plan("l", EntryKind::Symlink), ZipEntryPlan::Skip));
    assert!(matches!(zip_entry_plan("o", EntryKind::Other), ZipEntryPlan::Skip));
}

#[test]
fn server_texts() {
    assert_eq!(
        state_message("[]", "[1]", "\"/x\""),
        "{ \"files\": [], \"folders\": [1], \"current_dir\": \"/x\" }"
    );
    assert_eq!(listen_address("8000"), "0.0.0.0:8000");
    assert_eq!(server_banner("8000"), "Starting server on address http://localhost:8000");
}

#[test]
fn peek_report_text() {
    assert_eq!(
        peek_report("https://x.org", 200, "OK", true, false, 15),
        "URL: https://x.org\nStatus: 200 OK\nHTTP/2: true\nHSTS: false\nTime: 15ms\n"
    );
}

#[test]
fn websocket_screen() {
    let ms = vec!["".to_string(), "a".to_string(), "b".to_string()];
    assert_eq!(message_screen(&ms), ms.join("\n"));
    assert_eq!(message_screen(&vec![]), "");
}
