use std::path::Path;

use path_utilities::path_buf::PathBuf;

const SAMPLES: [&str; 30] = [
    "", "/", "//", "a", "a/", "./a", ".", "./", "..", "../a", "a/./b", "a//b/", "/a/b/./", "~/x",
    "/./a", "a/..", ".a", "...", "a/../b", ".//a", "./.", "//a//b//", "~", "foo/bar", "/foo/bar",
    "./foo/bar", "../../foo", "/home/user", "a/b/c/", "./..",
];

fn text(p: &PathBuf) -> String {
    String::from_utf8(p.as_bytes().to_vec()).unwrap()
}

fn std_text(p: &Path) -> String {
    p.to_str().unwrap().to_string()
}

#[test]
fn components_agree_with_std() {
    for s in SAMPLES {
        let mine: Vec<String> = PathBuf::from_str(s)
            .components()
            .into_iter()
            .map(|c| String::from_utf8(c).unwrap())
            .collect();
        let theirs: Vec<String> = Path::new(s)
            .components()
            .map(|c| c.as_os_str().to_str().unwrap().to_string())
            .collect();
        assert_eq!(mine, theirs, "components of {s:?}");
    }
}

#[test]
fn join_agrees_with_std() {
    for a in SAMPLES {
        for b in SAMPLES {
            let mine = PathBuf::from_str(a).join(&PathBuf::from_str(b));
            let theirs = Path::new(a).join(b);
            assert_eq!(text(&mine), std_text(&theirs), "{a:?} joined with {b:?}");
        }
    }
}

#[test]
fn parent_agrees_with_std() {
    for s in SAMPLES {
        let mine = PathBuf::from_str(s).parent().map(|p| text(&p));
        let theirs = Path::new(s).parent().map(std_text);
        assert_eq!(mine, theirs, "parent of {s:?}");
    }
}

#[test]
fn pop_agrees_with_std() {
    for s in SAMPLES {
        let mut mine = PathBuf::from_str(s);
        let mut theirs = std::path::PathBuf::from(s);
        assert_eq!(mine.pop(), theirs.pop(), "pop of {s:?}");
        assert_eq!(text(&mine), std_text(&theirs), "popped {s:?}");
    }
}

#[test]
fn strip_prefix_and_starts_with_agree_with_std() {
    for a in SAMPLES {
        for b in SAMPLES {
            let pa = PathBuf::from_str(a);
            let pb = PathBuf::from_str(b);
            assert_eq!(pa.starts_with(&pb), Path::new(a).starts_with(b), "{a:?} starts with {b:?}");
            let mine = pa.strip_prefix(&pb).map(|p| text(&p));
            let theirs = Path::new(a).strip_prefix(b).ok().map(std_text);
            assert_eq!(mine, theirs, "{a:?} stripped of {b:?}");
        }
    }
}

#[test]
fn equality_agrees_with_std() {
    for a in SAMPLES {
        for b in SAMPLES {
            assert_eq!(
                PathBuf::from_str(a) == PathBuf::from_str(b),
                Path::new(a) == Path::new(b),
                "{a:?} == {b:?}"
            );
        }
    }
}

#[test]
fn absolute_and_relative_agree_with_std() {
    for s in SAMPLES {
        assert_eq!(PathBuf::from_str(s).is_absolute(), Path::new(s).is_absolute());
        assert_eq!(PathBuf::from_str(s).is_relative(), Path::new(s).is_relative());
    }
}

#[test]
fn push_adds_separator_only_where_needed() {
    let mut p = PathBuf::new();
    p.push(&PathBuf::from_str("../"));
    assert_eq!(text(&p), "../");
    p.push(&PathBuf::from_str("../"));
    assert_eq!(text(&p), "../../");
    p.push(&PathBuf::from_str("foo"));
    assert_eq!(text(&p), "../../foo");
    p.push(&PathBuf::from_str("/bar"));
    assert_eq!(text(&p), "/bar");
}
