//! Absolute and relative forms of a path in the manner of the `PathExt`
//! extension. A path that starts with `..` climbs one directory up from the
//! current directory for each leading `..`, then puts back the component
//! that ended the run (or one `..` where the run is the whole path) and the
//! rest of the path. A relative form exists only below the current
//! directory.

use vstd::prelude::*;

use crate::home::{home_dir, reportable_home};
use crate::path_buf::{
    component_spans, components, has_root, lemma_exec_spans_wf, lemma_spans_wf, path_join, path_parent,
    path_strip_prefix, segments_equal, spans, spans_view, sub_bytes, tail_bytes, tail_from,
    PathBuf, DOT, TILDE,
};
use crate::resolve::{
    cur_dir_component, first_component_is, first_component_is_exec, home_component, opt_path,
    parent_dir_bytes, parent_dir_component, path_result, single_component, strip_first_component,
};

verus! {

/// Why a path could not be resolved.
#[derive(Debug, PartialEq, Eq, Clone, Copy, Structural)]
pub enum PathError {
    CurrDirNotFound,
    HomeDirNotFound,
    StripPrefixError,
}

/// How many of the components `cs[j..]` are `..` before the first other one.
pub open spec fn leading_parents_from(cs: Seq<Seq<u8>>, j: int) -> nat
    decreases cs.len() - j,
{
    if 0 <= j < cs.len() && cs[j] == parent_dir_component() {
        1 + leading_parents_from(cs, j + 1)
    } else {
        0
    }
}

/// `dir` after `m` steps up to its parent, or `None` when some step finds
/// no parent.
pub open spec fn ancestor(dir: Seq<u8>, m: nat) -> Option<Seq<u8>>
    decreases m,
{
    if m == 0 {
        Some(dir)
    } else {
        match path_parent(dir) {
            None => None,
            Some(d) => ancestor(d, (m - 1) as nat),
        }
    }
}

/// The current directory has an ancestor for each leading `..` of `p`
/// wherever the resolution climbs.
pub open spec fn parent_dirs_resolvable(p: Seq<u8>, cur: Option<Seq<u8>>) -> bool {
    match cur {
        None => true,
        Some(c) => (!has_root(p) && !first_component_is(p, home_component()) && first_component_is(
            p,
            parent_dir_component(),
        )) ==> ancestor(c, leading_parents_from(components(p), 0)) is Some,
    }
}

/// The absolute form of `p`, given the current directory `cur` and the home
/// directory `home`.
pub open spec fn spec_absolute_path_buf(
    p: Seq<u8>,
    cur: Option<Seq<u8>>,
    home: Option<Seq<u8>>,
) -> Result<Seq<u8>, PathError> {
    if has_root(p) {
        Ok(p)
    } else if first_component_is(p, home_component()) {
        match home {
            None => Err(PathError::HomeDirNotFound),
            Some(h) => Ok(path_join(h, tail_from(p, 1))),
        }
    } else {
        match cur {
            None => Err(PathError::CurrDirNotFound),
            Some(c) => {
                let cs = components(p);
                if cs.len() == 0 {
                    Ok(c)
                } else if cs[0] == parent_dir_component() {
                    let m = leading_parents_from(cs, 0);
                    let d = ancestor(c, m).unwrap();
                    let next = if m < cs.len() {
                        cs[m as int]
                    } else {
                        parent_dir_component()
                    };
                    Ok(path_join(path_join(d, next), tail_from(p, (m + 1) as int)))
                } else if cs[0] == cur_dir_component() {
                    Ok(path_join(c, tail_from(p, 1)))
                } else {
                    Ok(path_join(c, p))
                }
            },
        }
    }
}

/// The path `p` relative to the current directory `cur`: its absolute form
/// with the current directory taken off the front.
pub open spec fn spec_relative_path_buf(
    p: Seq<u8>,
    cur: Option<Seq<u8>>,
    home: Option<Seq<u8>>,
) -> Result<Seq<u8>, PathError> {
    match spec_absolute_path_buf(p, cur, home) {
        Err(e) => Err(e),
        Ok(a) => match cur {
            None => Err(PathError::CurrDirNotFound),
            Some(c) => match path_strip_prefix(a, c) {
                None => Err(PathError::StripPrefixError),
                Some(t) => Ok(t),
            },
        },
    }
}

proof fn lemma_leading_parents_bound(cs: Seq<Seq<u8>>, j: int)
    requires
        0 <= j <= cs.len(),
    ensures
        j + leading_parents_from(cs, j) <= cs.len(),
        forall|t: int|
            j <= t < j + leading_parents_from(cs, j) ==> #[trigger] cs[t] == parent_dir_component(),
    decreases cs.len() - j,
{
    if j < cs.len() && cs[j] == parent_dir_component() {
        lemma_leading_parents_bound(cs, j + 1);
    }
}

/// Whether the current directory has an ancestor for each leading `..` of
/// `path` wherever resolving `path` climbs.
pub fn parent_dirs_resolvable_exec(path: &PathBuf, cur_dir: Option<&PathBuf>) -> (r: bool)
    ensures
        r == parent_dirs_resolvable(path@, opt_path(cur_dir)),
{
    let c = match cur_dir {
        None => return true,
        Some(c) => c,
    };
    let parent = parent_dir_bytes();
    if path.is_absolute() || first_component_is_exec(path, single_component(TILDE).as_slice())
        || !first_component_is_exec(path, parent.as_slice()) {
        return true;
    }
    let b = path.as_bytes();
    let sp = component_spans(b);
    let ghost cs = components(path@);
    let ghost m = leading_parents_from(cs, 0);
    let mut dir = c.to_path_buf();
    let mut j: usize = 0;
    proof {
        lemma_exec_spans_wf(path@, sp@);
        lemma_leading_parents_bound(cs, 0);
    }
    while j < sp.len() && segments_equal(b, sp[j].0, sp[j].1, parent.as_slice(), 0, 2)
        invariant
            b@ == path@,
            parent@ == parent_dir_component(),
            spans_view(sp@) == spans(path@),
            cs == components(path@),
            cs.len() == sp@.len(),
            forall|t: int| 0 <= t < sp@.len() ==> #[trigger] sp@[t].0 < sp@[t].1 <= b@.len(),
            forall|t: int|
                0 <= t < sp@.len() ==> #[trigger] cs[t] == b@.subrange(
                    sp@[t].0 as int,
                    sp@[t].1 as int,
                ),
            j <= sp@.len(),
            m == leading_parents_from(cs, 0),
            m == j + leading_parents_from(cs, j as int),
            ancestor(c@, m) == ancestor(dir@, (m - j) as nat),
            opt_path(cur_dir) == Some(c@),
            !has_root(path@),
            !first_component_is(path@, home_component()),
            first_component_is(path@, parent_dir_component()),
        decreases sp@.len() - j,
    {
        assert(parent@.subrange(0, 2) =~= parent@);
        assert(cs[j as int] == parent_dir_component());
        assert(leading_parents_from(cs, j as int) == 1 + leading_parents_from(cs, j + 1));
        if !dir.pop() {
            assert(ancestor(dir@, (m - j) as nat) is None);
            return false;
        }
        j = j + 1;
    }
    if j < sp.len() {
        assert(parent@.subrange(0, 2) =~= parent@);
    }
    true
}

/// The absolute form of `path`, with `cur_dir` as the current directory and
/// `home` as the home directory.
pub fn absolute_path_buf_with(
    path: &PathBuf,
    cur_dir: Option<&PathBuf>,
    home: Option<&PathBuf>,
) -> (r: Result<PathBuf, PathError>)
    requires
        parent_dirs_resolvable(path@, opt_path(cur_dir)),
    ensures
        path_result(r) == spec_absolute_path_buf(path@, opt_path(cur_dir), opt_path(home)),
{
    if path.is_absolute() {
        return Ok(path.to_path_buf());
    }
    if first_component_is_exec(path, single_component(TILDE).as_slice()) {
        return match home {
            None => Err(PathError::HomeDirNotFound),
            Some(h) => Ok(h.join(&strip_first_component(path))),
        };
    }
    let mut current_dir = match cur_dir {
        None => return Err(PathError::CurrDirNotFound),
        Some(c) => c.to_path_buf(),
    };
    let b = path.as_bytes();
    let sp = component_spans(b);
    proof {
        lemma_spans_wf(path@);
    }
    if sp.len() == 0 {
        return Ok(current_dir);
    }
    let parent = parent_dir_bytes();
    if first_component_is_exec(path, parent.as_slice()) {
        let ghost cs = components(path@);
        let ghost m = leading_parents_from(cs, 0);
        let ghost c = current_dir@;
        proof {
            lemma_exec_spans_wf(path@, sp@);
            lemma_leading_parents_bound(cs, 0);
        }
        let mut j: usize = 0;
        while j < sp.len() && segments_equal(b, sp[j].0, sp[j].1, parent.as_slice(), 0, 2)
            invariant
                b@ == path@,
                parent@ == parent_dir_component(),
                spans_view(sp@) == spans(path@),
                cs == components(path@),
                cs.len() == sp@.len(),
                forall|t: int| 0 <= t < sp@.len() ==> #[trigger] sp@[t].0 < sp@[t].1 <= b@.len(),
                forall|t: int|
                    0 <= t < sp@.len() ==> #[trigger] cs[t] == b@.subrange(
                        sp@[t].0 as int,
                        sp@[t].1 as int,
                    ),
                j <= sp@.len(),
                m == j + leading_parents_from(cs, j as int),
                ancestor(c, m) is Some,
                ancestor(c, m) == ancestor(current_dir@, (m - j) as nat),
            decreases sp@.len() - j,
        {
            assert(parent@.subrange(0, 2) =~= parent@);
            assert(cs[j as int] == parent_dir_component());
            current_dir.pop();
            j = j + 1;
        }
        if j < sp.len() {
            assert(parent@.subrange(0, 2) =~= parent@);
        }
        assert(j == m);
        let next = if j < sp.len() {
            sub_bytes(b, sp[j].0, sp[j].1)
        } else {
            parent_dir_bytes()
        };
        current_dir.push(&PathBuf::from_bytes(next));
        let rest = if j < sp.len() {
            tail_bytes(b, &sp, j + 1)
        } else {
            Vec::new()
        };
        Ok(current_dir.join(&PathBuf::from_bytes(rest)))
    } else if first_component_is_exec(path, single_component(DOT).as_slice()) {
        Ok(current_dir.join(&strip_first_component(path)))
    } else {
        Ok(current_dir.join(path))
    }
}

/// The absolute form of `path`, with `cur_dir` as the current directory; the
/// home directory is looked up only for a relative path that starts with `~`.
pub fn absolute_path_buf(path: &PathBuf, cur_dir: Option<&PathBuf>) -> (r: Result<
    PathBuf,
    PathError,
>)
    requires
        parent_dirs_resolvable(path@, opt_path(cur_dir)),
    ensures
        exists|home: Option<Seq<u8>>|
            reportable_home(home) && path_result(r) == spec_absolute_path_buf(path@, opt_path(cur_dir), home),
        has_root(path@) || !first_component_is(path@, home_component()) ==> path_result(r)
            == spec_absolute_path_buf(path@, opt_path(cur_dir), None),
{
    if !path.is_absolute() && first_component_is_exec(path, single_component(TILDE).as_slice()) {
        let home = home_dir();
        let home_ref = home.as_ref();
        let r = absolute_path_buf_with(path, cur_dir, home_ref);
        assert(reportable_home(opt_path(home_ref)));
        assert(path_result(r) == spec_absolute_path_buf(path@, opt_path(cur_dir), opt_path(home_ref)));
        r
    } else {
        let r = absolute_path_buf_with(path, cur_dir, None);
        assert(reportable_home(None));
        r
    }
}

/// The part of `absolute` below the current directory `cur_dir`.
fn relative_from(absolute: Result<PathBuf, PathError>, cur_dir: Option<&PathBuf>) -> (r: Result<
    PathBuf,
    PathError,
>)
    ensures
        path_result(r) == match path_result(absolute) {
            Err(e) => Err(e),
            Ok(a) => match opt_path(cur_dir) {
                None => Err(PathError::CurrDirNotFound),
                Some(c) => match path_strip_prefix(a, c) {
                    None => Err(PathError::StripPrefixError),
                    Some(t) => Ok(t),
                },
            },
        },
{
    let a = match absolute {
        Err(e) => return Err(e),
        Ok(a) => a,
    };
    match cur_dir {
        None => Err(PathError::CurrDirNotFound),
        Some(c) => match a.strip_prefix(c) {
            None => Err(PathError::StripPrefixError),
            Some(t) => Ok(t),
        },
    }
}

/// `path` relative to the current directory `cur_dir`, with `home` as the
/// home directory.
pub fn relative_path_buf_with(
    path: &PathBuf,
    cur_dir: Option<&PathBuf>,
    home: Option<&PathBuf>,
) -> (r: Result<PathBuf, PathError>)
    requires
        parent_dirs_resolvable(path@, opt_path(cur_dir)),
    ensures
        path_result(r) == spec_relative_path_buf(path@, opt_path(cur_dir), opt_path(home)),
{
    relative_from(absolute_path_buf_with(path, cur_dir, home), cur_dir)
}

/// `path` relative to the current directory `cur_dir`; the home directory is
/// looked up only for a relative path that starts with `~`.
pub fn relative_path_buf(path: &PathBuf, cur_dir: Option<&PathBuf>) -> (r: Result<
    PathBuf,
    PathError,
>)
    requires
        parent_dirs_resolvable(path@, opt_path(cur_dir)),
    ensures
        exists|home: Option<Seq<u8>>|
            reportable_home(home) && path_result(r) == spec_relative_path_buf(path@, opt_path(cur_dir), home),
        has_root(path@) || !first_component_is(path@, home_component()) ==> path_result(r)
            == spec_relative_path_buf(path@, opt_path(cur_dir), None),
{
    let absolute = absolute_path_buf(path, cur_dir);
    let ghost home = choose|home: Option<Seq<u8>>|
        reportable_home(home) && path_result(absolute) == spec_absolute_path_buf(path@, opt_path(cur_dir), home);
    let r = relative_from(absolute, cur_dir);
    assert(path_result(r) == spec_relative_path_buf(path@, opt_path(cur_dir), home));
    r
}

/// Absolute and relative forms of a path.
pub trait PathExt: View<V = Seq<u8>> + Sized {
    /// The absolute form, with `cur_dir` as the current directory.
    fn absolute_path_buf(&self, cur_dir: Option<&PathBuf>) -> (r: Result<PathBuf, PathError>)
        requires
            parent_dirs_resolvable(self@, opt_path(cur_dir)),
        ensures
            exists|home: Option<Seq<u8>>|
                reportable_home(home) && path_result(r) == spec_absolute_path_buf(self@, opt_path(cur_dir), home),
    ;

    /// The form relative to the current directory `cur_dir`.
    fn relative_path_buf(&self, cur_dir: Option<&PathBuf>) -> (r: Result<PathBuf, PathError>)
        requires
            parent_dirs_resolvable(self@, opt_path(cur_dir)),
        ensures
            exists|home: Option<Seq<u8>>|
                reportable_home(home) && path_result(r) == spec_relative_path_buf(self@, opt_path(cur_dir), home),
    ;
}

impl PathExt for PathBuf {
    fn absolute_path_buf(&self, cur_dir: Option<&PathBuf>) -> (r: Result<PathBuf, PathError>) {
        absolute_path_buf(self, cur_dir)
    }

    fn relative_path_buf(&self, cur_dir: Option<&PathBuf>) -> (r: Result<PathBuf, PathError>) {
        relative_path_buf(self, cur_dir)
    }
}

} // verus!
