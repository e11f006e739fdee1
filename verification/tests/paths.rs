use xyi::path::{components, file_name, parent, relative_dir, strip_path_prefix};

fn comps(s: &str) -> Vec<String> {
    components(s).into_iter().map(|c| c.into_iter().collect()).collect()
}

#[test]
fn components_drop_empty_and_current_pieces() {
    assert_eq!(comps("/a//b/./c/"), vec!["/", "a", "b", "c"]);
    assert_eq!(comps("./a/b"), vec![".", "a", "b"]);
    assert_eq!(comps("a/../b"), vec!["a", "..", "b"]);
    assert_eq!(comps(""), Vec::<String>::new());
    assert_eq!(comps("/"), vec!["/"]);
    assert_eq!(comps(".a/b"), vec![".a", "b"]);
}

#[test]
fn rebuilding_parent_from_root_and_relative_part() {
    let parent = "/data/src/x/y";
    let root = "/data/src";
    let rel = relative_dir(parent, root);
    let mut rebuilt = comps(root);
    rebuilt.extend(comps(&rel));
    assert_eq!(rebuilt, comps(parent));
}

#[test]
fn relative_dir_compares_whole_components() {
    assert_eq!(relative_dir("/data/srcfoo/a", "/data/src"), "/data/srcfoo/a");
    assert_eq!(relative_dir("/data//src/./a/b/", "/data/src"), "a/b");
    assert_eq!(relative_dir("/x/y", ""), "/x/y");
}

#[test]
fn strip_path_prefix_fails_outside_the_base() {
    assert_eq!(strip_path_prefix("/a/b/c", "/a"), Some("b/c".to_string()));
    assert_eq!(strip_path_prefix("/a/b/c", "/b"), None);
    assert_eq!(strip_path_prefix("a", "/a"), None);
}

#[test]
fn file_names_of_paths() {
    assert_eq!(file_name("/data/src/file.txt"), Some("file.txt".to_string()));
    assert_eq!(file_name("dir/"), Some("dir".to_string()));
    assert_eq!(file_name("/"), None);
    assert_eq!(file_name("."), None);
    assert_eq!(file_name("a/.."), None);
    assert_eq!(file_name(""), None);
}

#[test]
fn parents_of_paths() {
    assert_eq!(parent("/data/src/file.txt"), Some("/data/src".to_string()));
    assert_eq!(parent("/data"), Some("/".to_string()));
    assert_eq!(parent("a"), Some("".to_string()));
    assert_eq!(parent("."), Some("".to_string()));
    assert_eq!(parent("/"), None);
    assert_eq!(parent(""), None);
}

#[test]
fn going_up_drops_exactly_one_component() {
    let p = "/home/user/music";
    let up = parent(p).unwrap();
    let mut c = comps(p);
    c.pop();
    assert_eq!(comps(&up), c);
}

#[test]
fn rendering_and_reading_back_components() {
    for s in ["/a//b/./c/", "./x", "a/../b", "", "/", "rel/dir/"] {
        let parts = components(s);
        let text: String = xyi::path::render(&parts, 0).into_iter().collect();
        assert_eq!(components(&text), parts);
    }
    assert_eq!(xyi::path::render(&components("/a//b/"), 0).into_iter().collect::<String>(), "/a/b");
    assert_eq!(xyi::path::render(&components("/a/b/c"), 2).into_iter().collect::<String>(), "b/c");
}
