use path_utilities::path_buf::PathBuf;
use path_utilities::path_ext::{
    absolute_path_buf_with, parent_dirs_resolvable_exec, relative_path_buf_with, PathError,
    PathExt,
};

fn p(s: &str) -> PathBuf {
    PathBuf::from_str(s)
}

fn text(p: &PathBuf) -> String {
    String::from_utf8(p.as_bytes().to_vec()).unwrap()
}

#[test]
fn simple_absolute_path_buf_works() {
    let path = p("/foo/bar");
    assert_eq!(path.absolute_path_buf(None), Ok(p("/foo/bar")));
}

#[test]
fn current_dir_absolute_path_buf_works() {
    let cur = p("/home/user/work");
    let path = p("./foo/bar");
    assert_eq!(path.absolute_path_buf(Some(&cur)), Ok(cur.join(&path)));
    let path = p("foo/bar");
    assert_eq!(path.absolute_path_buf(Some(&cur)), Ok(cur.join(&path)));
}

#[test]
fn parent_dir_absolute_path_buf_works() {
    let cur = p("/home/user/work");
    let expected = cur.parent().unwrap().join(&p("foo/bar"));
    assert_eq!(p("../foo/bar").absolute_path_buf(Some(&cur)), Ok(expected));
}

#[test]
fn parent_dirs_absolute_path_buf_works() {
    let cur = p("/home/user/work");
    let expected = cur.parent().unwrap().parent().unwrap().join(&p("foo/bar"));
    assert_eq!(p("../../foo/bar").absolute_path_buf(Some(&cur)), Ok(expected));
}

#[test]
fn home_dir_absolute_path_buf_works() {
    let home = p("/home/someone");
    let expected = home.join(&p("foo/bar"));
    assert_eq!(absolute_path_buf_with(&p("~/foo/bar"), None, Some(&home)), Ok(expected));
    assert_eq!(
        absolute_path_buf_with(&p("~/foo/bar"), None, None),
        Err(PathError::HomeDirNotFound)
    );
}

#[test]
fn simple_relative_path_buf_works() {
    let cur = p("/home/user/work");
    let path = cur.join(&p("foo/bar"));
    assert_eq!(path.relative_path_buf(Some(&cur)), Ok(p("foo/bar")));
    assert!(path.relative_path_buf(Some(&cur)).unwrap().is_relative());
    assert_eq!(p("./foo/bar").relative_path_buf(Some(&cur)), Ok(p("foo/bar")));
    assert_eq!(p("foo/bar").relative_path_buf(Some(&cur)), Ok(p("foo/bar")));
    assert!(p("/foo/bar").relative_path_buf(Some(&cur)).is_err());
    let home = p("/home/someone");
    assert!(relative_path_buf_with(&p("~/foo/bar"), Some(&cur), Some(&home)).is_err());
}

#[test]
fn parent_runs_keep_the_next_component() {
    let cur = p("/a/b/c");
    assert_eq!(text(&absolute_path_buf_with(&p("../x/y"), Some(&cur), None).unwrap()), "/a/b/x/y");
    assert_eq!(text(&absolute_path_buf_with(&p("../../x"), Some(&cur), None).unwrap()), "/a/x/");
    // a path made only of `..` puts one `..` back and ends with a separator
    assert_eq!(text(&absolute_path_buf_with(&p("../.."), Some(&cur), None).unwrap()), "/a/../");
    assert_eq!(absolute_path_buf_with(&p("../x"), None, None), Err(PathError::CurrDirNotFound));
    assert_eq!(text(&absolute_path_buf_with(&p(""), Some(&cur), None).unwrap()), "/a/b/c");
}

#[test]
fn resolvable_only_with_enough_ancestors() {
    let cur = p("/a/b");
    assert!(parent_dirs_resolvable_exec(&p("../../x"), Some(&cur)));
    assert!(!parent_dirs_resolvable_exec(&p("../../../x"), Some(&cur)));
    assert!(parent_dirs_resolvable_exec(&p("../../../x"), None));
    assert!(parent_dirs_resolvable_exec(&p("/x"), Some(&cur)));
}

#[test]
fn relative_needs_the_current_dir_as_prefix() {
    let cur = p("/a/b");
    assert_eq!(relative_path_buf_with(&p("/x"), Some(&cur), None), Err(PathError::StripPrefixError));
    assert_eq!(relative_path_buf_with(&p("/x"), None, None), Err(PathError::CurrDirNotFound));
    assert_eq!(text(&relative_path_buf_with(&p("c/d"), Some(&cur), None).unwrap()), "c/d");
}
