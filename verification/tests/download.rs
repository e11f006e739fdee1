use xyi::download::{
    download_finished_message, download_target, file_name_from_content_disposition,
    file_name_from_url, parse_content_length,
};

#[test]
fn url_file_name_ignores_one_trailing_slash() {
    assert_eq!(file_name_from_url("https://x.org/a/b"), file_name_from_url("https://x.org/a/b/"));
}

#[test]
fn url_file_name_ignores_query_and_fragment() {
    assert_eq!(file_name_from_url("https://example.com/file.zip?dl=1"), "file.zip");
    assert_eq!(file_name_from_url("https://example.com/a/file.zip#top"), "file.zip");
    assert_eq!(file_name_from_url("https://example.com/dir/?x=/y"), "dir");
    assert_eq!(file_name_from_url("https://example.com?q"), "example.com");
}

#[test]
fn url_file_name_falls_back_to_the_url() {
    assert_eq!(file_name_from_url("https://x.org//"), "https://x.org/");
    assert_eq!(file_name_from_url(""), "");
    assert_eq!(file_name_from_url("/"), "");
    assert_eq!(file_name_from_url("name"), "name");
}

#[test]
fn content_disposition_edge_cases() {
    assert_eq!(
        file_name_from_content_disposition("attachment; filename=  \"a b.txt\"  "),
        Some("a b.txt".to_string())
    );
    assert_eq!(file_name_from_content_disposition("attachment; filename=\"\""), None);
    assert_eq!(file_name_from_content_disposition("attachment; filename=   "), None);
    assert_eq!(
        file_name_from_content_disposition("filename=one; filename=two"),
        Some("one".to_string())
    );
    assert_eq!(
        file_name_from_content_disposition("filename=a filename=b"),
        Some("a".to_string())
    );
    assert_eq!(
        file_name_from_content_disposition("attachment; filename=\"report.pdf\"; size=1024"),
        Some("report.pdf".to_string())
    );
    assert_eq!(
        file_name_from_content_disposition("attachment; filename=\"a;b.txt\"; size=3"),
        Some("a;b.txt".to_string())
    );
    assert_eq!(
        file_name_from_content_disposition("x; filename=\u{3000}tab.txt\t"),
        Some("tab.txt".to_string())
    );
}

#[test]
fn download_target_prefers_the_given_name() {
    assert_eq!(
        download_target(Some("out.bin"), Some("attachment; filename=a.zip"), "https://x.org/b.zip"),
        "out.bin"
    );
    assert_eq!(
        download_target(None, Some("attachment; filename=a.zip"), "https://x.org/b.zip"),
        "a.zip"
    );
    assert_eq!(download_target(None, Some("inline"), "https://x.org/b.zip"), "b.zip");
    assert_eq!(download_target(None, None, "https://x.org/b.zip"), "b.zip");
}

#[test]
fn content_length_parses_like_u64_from_str() {
    assert_eq!(parse_content_length("1234"), Some(1234));
    assert_eq!(parse_content_length("+7"), Some(7));
    assert_eq!(parse_content_length("0"), Some(0));
    assert_eq!(parse_content_length("18446744073709551615"), Some(u64::MAX));
    assert_eq!(parse_content_length("18446744073709551616"), None);
    assert_eq!(parse_content_length("184467440737095516160000"), None);
    assert_eq!(parse_content_length(""), None);
    assert_eq!(parse_content_length("+"), None);
    assert_eq!(parse_content_length("-1"), None);
    assert_eq!(parse_content_length("12a"), None);
    assert_eq!(parse_content_length(" 12"), None);
    for s in ["1234", "+7", "", "+", "-1", "12a", "99999999999999999999"] {
        assert_eq!(parse_content_length(s), s.parse::<u64>().ok());
    }
}

#[test]
fn finished_message() {
    assert_eq!(
        download_finished_message("https://x.org/b.zip", "b.zip"),
        "Downloaded https://x.org/b.zip to b.zip"
    );
}
