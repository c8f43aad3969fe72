use rude_core::path::{copy_opt, from_opt_text, FilePath};

#[test]
fn paths_are_joined_as_on_unix() {
    for (dir, name) in [
        ("/tmp", "f"),
        ("/tmp/", "f"),
        ("", "f"),
        ("/tmp", "/abs"),
        (".", "a/b"),
        ("/tmp", ""),
        ("/tm\u{f6}", "\u{fc}"),
    ] {
        let expected = std::path::Path::new(dir).join(name);
        let path = FilePath::from_text(dir).join(name);
        assert_eq!(path, FilePath::from_text(expected.to_str().unwrap()));
        assert_eq!(path.display(), expected.to_string_lossy());
    }
}

#[test]
fn paths_that_are_not_text_are_kept() {
    let dir = FilePath { bytes: vec![b'/', 0xff] };
    let path = dir.join("f");
    assert_eq!(path.bytes, vec![b'/', 0xff, b'/', b'f']);
    assert_eq!(path.display(), "/\u{fffd}/f");
    assert_eq!(path.clone(), path);
    assert_eq!(copy_opt(&Some(dir.clone())), Some(dir));
}

#[test]
fn written_paths_are_shown_as_written() {
    for text in ["", "/dl/f.iso", "/\u{e4}\u{1f600}", "a\u{0}b"] {
        assert_eq!(FilePath::from_text(text).display(), text);
        assert_eq!(from_opt_text(&Some(text.to_string())).unwrap().bytes, text.as_bytes());
    }
    assert_eq!(from_opt_text(&None), None);
}
