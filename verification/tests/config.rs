use book::config::{config_dir, config_path, expand_tilde, home_dir, join_path, progress_path};

#[test]
fn tilde_expands_to_the_home_directory() {
    assert_eq!(expand_tilde("~/books", "/home/me"), "/home/me/books");
    assert_eq!(expand_tilde("~", "/home/me"), "/home/me");
    assert_eq!(expand_tilde("/srv/books", "/home/me"), "/srv/books");
    assert_eq!(expand_tilde("~other/books", "/home/me"), "~other/books");
    assert_eq!(expand_tilde("~/books", "/home/me/"), "/home/me/books");
}

#[test]
fn joining_paths_follows_pathbuf() {
    for (base, rest) in [("/a", "b"), ("/a/", "b"), ("", "b"), ("/a", "/b"), ("a", ""), (".", "x/y")] {
        let expected = std::path::PathBuf::from(base).join(rest);
        assert_eq!(join_path(base, rest), expected.to_str().unwrap(), "{base} + {rest}");
    }
}

#[test]
fn home_directory_falls_back_in_order() {
    assert_eq!(home_dir(Some("/h".to_string()), Some("/u".to_string())), "/h");
    assert_eq!(home_dir(None, Some("/u".to_string())), "/u");
    assert_eq!(home_dir(None, None), ".");
}

#[test]
fn configuration_directory_honours_book_config_dir() {
    assert_eq!(config_dir(Some("/cfg".to_string()), "/home/me"), "/cfg");
    assert_eq!(config_dir(Some(String::new()), "/home/me"), "/home/me/.config");
    assert_eq!(config_dir(None, "/home/me"), "/home/me/.config");
    assert_eq!(config_path("/cfg"), "/cfg/book.toml");
    assert_eq!(progress_path("/cfg"), "/cfg/book-progress.toml");
}
