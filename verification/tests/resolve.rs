use path_utilities::path_buf::PathBuf;
use path_utilities::resolve::{
    absolute_path_buf, absolute_path_buf_with, expand_current_dir, expand_home_dir_with,
    expand_parent_dirs, path_to_string, prepend_current_dir, relative_path_buf,
    relative_path_buf_or_mine, relative_path_buf_with, PathExtError, PathType,
};

fn p(s: &str) -> PathBuf {
    PathBuf::from_str(s)
}

fn text(p: &PathBuf) -> String {
    String::from_utf8(p.as_bytes().to_vec()).unwrap()
}

#[test]
fn lib_simple_absolute_path_buf_works() {
    let path = p("/foo/bar");
    assert_eq!(absolute_path_buf(&path, None), Ok(p("/foo/bar")));
    let cur = p("/home/user/work");
    assert_eq!(absolute_path_buf(&path, Some(&cur)), Ok(p("/foo/bar")));
}

#[test]
fn lib_current_dir_absolute_path_buf_works() {
    let cur = p("/home/user/work");
    let path = p("./foo/bar");
    let expected = cur.join(&path);
    assert_eq!(absolute_path_buf(&path, Some(&cur)), Ok(expected));
    let path = p("foo/bar");
    let expected = cur.join(&path);
    assert_eq!(absolute_path_buf(&path, Some(&cur)), Ok(expected));
}

#[test]
fn lib_parent_dir_absolute_path_buf_works() {
    let cur = p("/home/user/work");
    let parent_dir = cur.parent().unwrap();
    let expected = parent_dir.join(&p("foo/bar"));
    assert_eq!(absolute_path_buf(&p("../foo/bar"), Some(&cur)), Ok(expected));
}

#[test]
fn lib_parent_dirs_absolute_path_buf_works() {
    let cur = p("/home/user/work");
    let parent_dir = cur.parent().unwrap().parent().unwrap();
    let expected = parent_dir.join(&p("foo/bar"));
    assert_eq!(absolute_path_buf(&p("../../foo/bar"), Some(&cur)), Ok(expected));
}

#[test]
fn lib_home_dir_absolute_path_buf_works() {
    let home = p("/home/someone");
    let expected = home.join(&p("foo/bar"));
    let cur = p("/tmp");
    assert_eq!(absolute_path_buf_with(&p("~/foo/bar"), Some(&cur), Some(&home)), Ok(expected));
    assert_eq!(
        absolute_path_buf_with(&p("~/foo/bar"), Some(&cur), None),
        Err(PathExtError::HomeDirNotFound)
    );
}

#[test]
fn lib_simple_relative_path_buf_works() {
    let cur = p("/home/user/work");
    let path = cur.join(&p("foo/bar"));
    assert_eq!(relative_path_buf(&path, Some(&cur)), Ok(p("foo/bar")));
    assert!(relative_path_buf(&path, Some(&cur)).unwrap().is_relative());
    assert_eq!(relative_path_buf(&p("./foo/bar"), Some(&cur)), Ok(p("foo/bar")));
    assert_eq!(relative_path_buf(&p("foo/bar"), Some(&cur)), Ok(p("foo/bar")));
}

#[test]
fn complex_relative_path_buf_works() {
    let mut current_dir = p("/home/user/work/project");
    let cur = current_dir.to_path_buf();
    let path = current_dir.parent().unwrap().join(&p("foo/bar"));
    assert_eq!(relative_path_buf(&path, Some(&cur)), Ok(p("../foo/bar")));
    let mut expected_prefix = PathBuf::new();
    loop {
        if let Some(parent) = current_dir.parent() {
            let path = parent.join(&p("foo/bar"));
            expected_prefix.push(&p("../"));
            let expected = expected_prefix.join(&p("foo/bar"));
            assert_eq!(relative_path_buf(&path, Some(&cur)), Ok(expected));
            let relative = relative_path_buf(&path, Some(&cur)).unwrap();
            assert!(relative.is_relative());
            assert_eq!(absolute_path_buf(&relative, Some(&cur)).unwrap(), path);
            current_dir = parent;
        } else {
            break;
        }
    }
}

#[test]
fn relative_path_buf_climbs_by_bytes() {
    let cur = p("/a/b/c");
    assert_eq!(text(&relative_path_buf(&p("/a/x/y"), Some(&cur)).unwrap()), "../../x/y");
    assert_eq!(text(&relative_path_buf(&p("/z"), Some(&cur)).unwrap()), "../../../z");
    assert_eq!(text(&relative_path_buf(&p("/a/b/c"), Some(&cur)).unwrap()), "");
    assert_eq!(text(&relative_path_buf(&p("/a/b/c/d/"), Some(&cur)).unwrap()), "d");
}

#[test]
fn relative_path_buf_strips_the_path_as_given() {
    let cur = p("/a/b");
    // the climb ends at `/a`, which the given `../x` does not start with
    assert_eq!(relative_path_buf(&p("../x"), Some(&cur)), Err(PathExtError::StripPrefixError));
    assert_eq!(relative_path_buf(&p("x"), None), Err(PathExtError::CurrDirNotFound));
    assert_eq!(relative_path_buf(&p("/x"), None), Err(PathExtError::CurrDirNotFound));
    assert_eq!(
        relative_path_buf_with(&p("~/x"), Some(&cur), Some(&p("/a/b/h"))),
        Ok(p("h/x"))
    );
}

#[test]
fn relative_path_buf_or_mine_falls_back() {
    let cur = p("/a/b");
    assert_eq!(relative_path_buf_or_mine(&p("/a/b/c"), Some(&cur)), p("c"));
    assert_eq!(relative_path_buf_or_mine(&p("../x"), Some(&cur)), p("../x"));
    assert_eq!(relative_path_buf_or_mine(&p("x"), None), p("x"));
}

#[test]
fn path_type_of_each_kind() {
    assert_eq!(PathType::of(&p("/foo")), PathType::Absolute);
    assert_eq!(PathType::of(&p("./foo")), PathType::RelativeCurDir);
    assert_eq!(PathType::of(&p(".")), PathType::RelativeCurDir);
    assert_eq!(PathType::of(&p("foo/bar")), PathType::RelativeCurDirImplicit);
    assert_eq!(PathType::of(&p(".foo")), PathType::RelativeCurDirImplicit);
    assert_eq!(PathType::of(&p("../foo")), PathType::RelativeParentDirs);
    assert_eq!(PathType::of(&p("~/foo")), PathType::RelativeHomeDir);
    assert_eq!(PathType::of(&p("~")), PathType::RelativeHomeDir);
    assert_eq!(PathType::of(&p("~foo")), PathType::RelativeCurDirImplicit);
    assert_eq!(PathType::of(&p("")), PathType::Empty);
}

#[test]
fn expansions_refuse_other_prefixes() {
    let cur = p("/c");
    assert_eq!(expand_current_dir(&p("foo"), Some(&cur)), Err(PathExtError::UnexpectedPrefix));
    assert_eq!(expand_current_dir(&p("./foo"), None), Err(PathExtError::CurrDirNotFound));
    assert_eq!(text(&expand_current_dir(&p("./foo"), Some(&cur)).unwrap()), "/c/foo");
    assert_eq!(text(&expand_current_dir(&p("."), Some(&cur)).unwrap()), "/c/");
    assert_eq!(expand_home_dir_with(&p("foo"), Some(&cur)), Err(PathExtError::UnexpectedPrefix));
    assert_eq!(prepend_current_dir(&p("~/foo"), Some(&cur)), Err(PathExtError::UnexpectedPrefix));
    assert_eq!(prepend_current_dir(&p("./foo"), Some(&cur)), Err(PathExtError::UnexpectedPrefix));
    assert_eq!(prepend_current_dir(&p(""), Some(&cur)), Ok(p("/c")));
    assert_eq!(prepend_current_dir(&p("foo"), None), Err(PathExtError::CurrDirNotFound));
}

#[test]
fn expand_parent_dirs_stops_at_the_root() {
    assert_eq!(text(&expand_parent_dirs(&p("../x"), Some(&p("/a/b"))).unwrap()), "/a/x");
    assert_eq!(text(&expand_parent_dirs(&p("../.."), Some(&p("/a/b"))).unwrap()), "/");
    assert_eq!(
        expand_parent_dirs(&p("../../../x"), Some(&p("/a/b"))),
        Err(PathExtError::ParentDirNotFound)
    );
    assert_eq!(expand_parent_dirs(&p("../x"), None), Err(PathExtError::CurrDirNotFound));
    assert_eq!(text(&expand_parent_dirs(&p("x"), Some(&p("/a"))).unwrap()), "/a/x");
}

#[test]
fn empty_path_is_the_current_dir() {
    assert_eq!(absolute_path_buf(&p(""), Some(&p("/w"))), Ok(p("/w")));
    assert_eq!(absolute_path_buf(&p(""), None), Err(PathExtError::CurrDirNotFound));
}

#[test]
fn path_to_string_gives_the_text() {
    assert_eq!(path_to_string(&p("/foo/bar")), "/foo/bar");
    let odd = PathBuf::from_bytes(vec![b'/', b'a', 0xff, b'b']);
    assert_eq!(path_to_string(&odd), "/a\u{fffd}b");
}
