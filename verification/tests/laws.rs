use path_utilities::path_buf::PathBuf;
use path_utilities::path_ext;
use path_utilities::recollections::{
    data_file_path, init, recall, recall_or_else, remember, Recollections,
};
use path_utilities::resolve::{
    absolute_path_buf_with, path_to_string, relative_path_buf_or_mine, relative_path_buf_with,
    PathType,
};

const SAMPLES: [&str; 26] = [
    "", "/", "a", "a/", "./a", ".", "./", "..", "../a", "a/./b", "a//b/", "/a/b/./", "~/x", "/./a",
    "a/..", ".a", "...", "a/../b", "../../x/y", "~", "/w/x/y", "/w/x", "/w", "/w/z/q", "/w/x/~/k",
    "/w/x/../y",
];

fn p(s: &str) -> PathBuf {
    PathBuf::from_str(s)
}

#[test]
fn absolute_forms_start_at_the_root() {
    let cur = p("/w/x");
    let home = p("/h");
    for s in SAMPLES {
        if let Ok(a) = absolute_path_buf_with(&p(s), Some(&cur), Some(&home)) {
            assert!(a.is_absolute(), "{s:?}");
        }
        let path = p(s);
        if path_ext::parent_dirs_resolvable_exec(&path, Some(&cur)) {
            if let Ok(a) = path_ext::absolute_path_buf_with(&path, Some(&cur), Some(&home)) {
                assert!(a.is_absolute(), "{s:?}");
            }
        }
    }
}

#[test]
fn relative_forms_do_not_start_at_the_root() {
    let cur = p("/w/x");
    let home = p("/h");
    for s in SAMPLES {
        if let Ok(r) = relative_path_buf_with(&p(s), Some(&cur), Some(&home)) {
            assert!(r.is_relative(), "{s:?}");
        }
        let path = p(s);
        if path_ext::parent_dirs_resolvable_exec(&path, Some(&cur)) {
            if let Ok(r) = path_ext::relative_path_buf_with(&path, Some(&cur), Some(&home)) {
                assert!(r.is_relative(), "{s:?}");
            }
        }
    }
}

#[test]
fn relative_then_absolute_gives_the_path_back() {
    let cur = p("/w/x");
    for s in ["/w/x/y", "/w/x", "/w", "/", "/w/z/q", "/a/b/c", "/w/x/y/../z"] {
        let path = p(s);
        let r = relative_path_buf_with(&path, Some(&cur), None).unwrap();
        let a = absolute_path_buf_with(&r, Some(&cur), None).unwrap();
        assert_eq!(a, path, "{s:?}");
    }
    // the part kept starts with `..`: the climb goes further
    let path = p("/w/../q");
    let r = relative_path_buf_with(&path, Some(&cur), None).unwrap();
    assert_ne!(absolute_path_buf_with(&r, Some(&cur), None).unwrap(), path);
}

#[test]
fn ext_relative_then_absolute_gives_the_path_back() {
    let cur = p("/w/x");
    for s in ["/w/x/y", "/w/x", "/w/x/y/z/"] {
        let path = p(s);
        let r = path_ext::relative_path_buf_with(&path, Some(&cur), None).unwrap();
        let a = path_ext::absolute_path_buf_with(&r, Some(&cur), None).unwrap();
        assert_eq!(a, path, "{s:?}");
    }
}

#[test]
fn absolute_kind_is_root() {
    for s in SAMPLES {
        assert_eq!(PathType::of(&p(s)) == PathType::Absolute, p(s).is_absolute(), "{s:?}");
    }
}

#[test]
fn recall_after_remember_gives_the_value() {
    let mut store = Recollections::new();
    init(&mut store, data_file_path(&p("/f"), None).unwrap(), br#"{"x":"1"}"#).unwrap();
    remember(&mut store, "name", "value").unwrap();
    assert_eq!(recall(&store, "name"), Some("value".to_string()));
    assert_eq!(recall(&store, "x"), Some("1".to_string()));
    assert_eq!(recall_or_else(&store, "y", "d"), "d");
}

#[test]
fn a_later_session_recalls_what_was_written() {
    let mut first = Recollections::new();
    init(&mut first, data_file_path(&p("/f"), None).unwrap(), b"{}").unwrap();
    remember(&mut first, "size", "640x480").unwrap();
    let written = remember(&mut first, "title", "a \"quoted\" \u{e9}").unwrap().unwrap();
    let mut second = Recollections::new();
    init(&mut second, data_file_path(&p("/f"), None).unwrap(), &written.contents).unwrap();
    assert_eq!(recall(&second, "size"), Some("640x480".to_string()));
    assert_eq!(recall(&second, "title"), Some("a \"quoted\" \u{e9}".to_string()));
}

#[test]
fn text_paths_give_their_text_back() {
    for s in SAMPLES {
        assert_eq!(path_to_string(&p(s)), s);
    }
    assert_eq!(path_to_string(&p("/d\u{e9}j\u{e0}")), "/d\u{e9}j\u{e0}");
}

#[test]
fn home_dir_replaces_the_tilde() {
    let r = path_utilities::resolve::absolute_path_buf(&p("~/foo"), None);
    if let Ok(path) = r {
        let text = path_to_string(&path);
        assert!(text.ends_with("/foo"));
        assert!(!text.starts_with('~'));
    } else {
        assert_eq!(r, Err(path_utilities::resolve::PathExtError::HomeDirNotFound));
    }
}

#[test]
fn ext_cur_dir_joined_with_relative_gives_absolute() {
    let cur = p("/w/x");
    for s in ["/w/x/y", "/w/x", "/w/x/y/z/", "y", "./y/z", "y/..", "~/k"] {
        let path = p(s);
        let home = p("/w/x/h");
        if let Ok(r) = path_ext::relative_path_buf_with(&path, Some(&cur), Some(&home)) {
            assert!(r.is_relative(), "{s:?}");
            let a = path_ext::absolute_path_buf_with(&path, Some(&cur), Some(&home)).unwrap();
            assert_eq!(cur.join(&r), a, "{s:?}");
        } else {
            panic!("{s:?} has no relative form");
        }
    }
    assert_eq!(path_to_string(&cur.join(&p("y/z"))), "/w/x/y/z");
}

#[test]
fn joining_a_relative_path_keeps_the_kind() {
    for s in SAMPLES {
        let base = p(s);
        if PathType::of(&base) == PathType::Empty {
            continue;
        }
        for t in ["a", "a/b", "./c", "..", "~/d", "", "x/"] {
            let tail = p(t);
            assert!(tail.is_relative());
            assert!(PathType::of(&base.join(&tail)) == PathType::of(&base), "{s:?} {t:?}");
        }
    }
}

#[test]
fn or_mine_falls_back_to_the_path() {
    let cur = p("/w/x");
    for s in ["/w/x/y", "/w/x", "/a/b", "y/z", "../q", "/"] {
        let path = p(s);
        let expected = match relative_path_buf_with(&path, Some(&cur), None) {
            Ok(r) => r,
            Err(_) => path.clone(),
        };
        assert_eq!(relative_path_buf_or_mine(&path, Some(&cur)), expected, "{s:?}");
    }
    assert_eq!(relative_path_buf_or_mine(&p("/w/x/y"), Some(&cur)), p("y"));
}

#[test]
fn a_later_session_recalls_the_last_of_a_run() {
    let mut first = Recollections::new();
    init(&mut first, data_file_path(&p("/f"), None).unwrap(), br#"{"c":"0"}"#).unwrap();
    remember(&mut first, "a", "1").unwrap();
    remember(&mut first, "b", "2").unwrap();
    let written = remember(&mut first, "a", "3").unwrap().unwrap();
    assert_eq!(written.contents, br#"{"a":"3","b":"2","c":"0"}"#.to_vec());
    let mut second = Recollections::new();
    init(&mut second, data_file_path(&p("/f"), None).unwrap(), &written.contents).unwrap();
    assert_eq!(recall(&second, "a"), Some("3".to_string()));
    assert_eq!(recall(&second, "b"), Some("2".to_string()));
    assert_eq!(recall(&second, "c"), Some("0".to_string()));
    assert_eq!(recall(&second, "d"), None);
}
