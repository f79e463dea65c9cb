//! Classifying a path by its first component and turning it into an
//! absolute path, or into a path relative to the current directory.
//!
//! The current directory is passed in by the caller (`None` where it could
//! not be found); the home directory is looked up where a path starts
//! with `~`.

use vstd::prelude::*;
use vstd::utf8::{decode_utf8, valid_utf8};

use crate::home::{home_dir, reportable_home};
use crate::text::{from_utf8_lossy, utf8_lossy};
use crate::path_buf::{
    component_spans, components, has_root, lemma_spans_wf, path_join, path_parent, path_starts_with,
    path_strip_prefix, spans, tail_bytes, tail_from, PathBuf, DOT, SEPARATOR, TILDE,
};

verus! {

/// Why a path could not be resolved.
#[derive(Debug, PartialEq, Eq, Clone, Copy, Structural)]
pub enum PathExtError {
    CurrDirNotFound,
    HomeDirNotFound,
    ParentDirNotFound,
    StripPrefixError,
    UnexpectedPrefix,
}

/// The kind of a path, by its first component.
#[derive(Debug, PartialEq, Eq, Clone, Copy, Structural)]
pub enum PathType {
    Absolute,
    RelativeCurDir,
    RelativeCurDirImplicit,
    RelativeParentDirs,
    RelativeHomeDir,
    Empty,
}

/// The component `/`.
pub open spec fn root_component() -> Seq<u8> {
    seq![SEPARATOR]
}

/// The component `.`.
pub open spec fn cur_dir_component() -> Seq<u8> {
    seq![DOT]
}

/// The component `..`.
pub open spec fn parent_dir_component() -> Seq<u8> {
    seq![DOT, DOT]
}

/// The component `~`.
pub open spec fn home_component() -> Seq<u8> {
    seq![TILDE]
}

/// The first component of `p` is `c`.
pub open spec fn first_component_is(p: Seq<u8>, c: Seq<u8>) -> bool {
    components(p).len() > 0 && components(p)[0] == c
}

/// The kind of `p`.
pub open spec fn path_type(p: Seq<u8>) -> PathType {
    if components(p).len() == 0 {
        PathType::Empty
    } else if first_component_is(p, root_component()) {
        PathType::Absolute
    } else if first_component_is(p, cur_dir_component()) {
        PathType::RelativeCurDir
    } else if first_component_is(p, parent_dir_component()) {
        PathType::RelativeParentDirs
    } else if first_component_is(p, home_component()) {
        PathType::RelativeHomeDir
    } else {
        PathType::RelativeCurDirImplicit
    }
}

/// A path result seen through the bytes of the path.
pub open spec fn path_result<E>(r: Result<PathBuf, E>) -> Result<Seq<u8>, E> {
    match r {
        Ok(p) => Ok(p@),
        Err(e) => Err(e),
    }
}

/// An optional path seen through its bytes.
pub open spec fn opt_path(o: Option<&PathBuf>) -> Option<Seq<u8>> {
    match o {
        Some(p) => Some(p@),
        None => None,
    }
}

/// A path that starts with `.`, with that component replaced by the current
/// directory.
pub open spec fn spec_expand_current_dir(p: Seq<u8>, cur: Option<Seq<u8>>) -> Result<
    Seq<u8>,
    PathExtError,
> {
    if first_component_is(p, cur_dir_component()) {
        match cur {
            None => Err(PathExtError::CurrDirNotFound),
            Some(c) => Ok(path_join(c, tail_from(p, 1))),
        }
    } else {
        Err(PathExtError::UnexpectedPrefix)
    }
}

/// Takes the leading `..` components off `tail` one by one, moving `dir` up
/// to its parent for each, then appends what is left of `tail` to `dir`.
pub open spec fn climb_parents(tail: Seq<u8>, dir: Seq<u8>) -> Result<Seq<u8>, PathExtError>
    decreases tail.len(),
{
    if first_component_is(tail, parent_dir_component()) {
        match path_parent(dir) {
            None => Err(PathExtError::ParentDirNotFound),
            Some(d) => {
                proof {
                    lemma_tail_from_shorter(tail);
                }
                climb_parents(tail_from(tail, 1), d)
            },
        }
    } else {
        Ok(path_join(dir, tail))
    }
}

/// A path that starts with `..`, resolved against the current directory.
pub open spec fn spec_expand_parent_dirs(p: Seq<u8>, cur: Option<Seq<u8>>) -> Result<
    Seq<u8>,
    PathExtError,
> {
    match cur {
        None => Err(PathExtError::CurrDirNotFound),
        Some(c) => climb_parents(p, c),
    }
}

/// A path that starts with `~`, with that component replaced by the home
/// directory `home` (`None` where there is none).
pub open spec fn spec_expand_home_dir(p: Seq<u8>, home: Option<Seq<u8>>) -> Result<
    Seq<u8>,
    PathExtError,
> {
    if first_component_is(p, home_component()) {
        match home {
            None => Err(PathExtError::HomeDirNotFound),
            Some(h) => Ok(path_join(h, tail_from(p, 1))),
        }
    } else {
        Err(PathExtError::UnexpectedPrefix)
    }
}

/// A path that starts with an ordinary component other than `~` (or is
/// empty), put under the current directory.
pub open spec fn spec_prepend_current_dir(p: Seq<u8>, cur: Option<Seq<u8>>) -> Result<
    Seq<u8>,
    PathExtError,
> {
    if components(p).len() == 0 {
        match cur {
            None => Err(PathExtError::CurrDirNotFound),
            Some(c) => Ok(c),
        }
    } else if path_type(p) == PathType::RelativeCurDirImplicit {
        match cur {
            None => Err(PathExtError::CurrDirNotFound),
            Some(c) => Ok(path_join(c, p)),
        }
    } else {
        Err(PathExtError::UnexpectedPrefix)
    }
}

/// The absolute form of `p`, given the current directory `cur` and the home
/// directory `home`.
pub open spec fn spec_absolute_path_buf(
    p: Seq<u8>,
    cur: Option<Seq<u8>>,
    home: Option<Seq<u8>>,
) -> Result<Seq<u8>, PathExtError> {
    match path_type(p) {
        PathType::Absolute => Ok(p),
        PathType::RelativeCurDir => spec_expand_current_dir(p, cur),
        PathType::RelativeParentDirs => spec_expand_parent_dirs(p, cur),
        PathType::RelativeHomeDir => spec_expand_home_dir(p, home),
        PathType::RelativeCurDirImplicit => spec_prepend_current_dir(p, cur),
        PathType::Empty => match cur {
            None => Err(PathExtError::CurrDirNotFound),
            Some(c) => Ok(c),
        },
    }
}

/// `../` written `m` times.
pub open spec fn up_dirs(m: nat) -> Seq<u8>
    decreases m,
{
    if m == 0 {
        seq![]
    } else {
        up_dirs((m - 1) as nat) + seq![DOT, DOT, SEPARATOR]
    }
}

/// Moving up from `dir` one parent at a time until `abs` starts with it, or
/// until there is no parent: the number of steps taken (each one counted,
/// also the last that found no parent) and the directory reached.
pub open spec fn climb_to_prefix(abs: Seq<u8>, dir: Seq<u8>) -> (nat, Seq<u8>)
    decreases dir.len(),
{
    match path_parent(dir) {
        None => (1, dir),
        Some(d) => {
            proof {
                lemma_parent_shorter(dir);
            }
            if path_starts_with(abs, d) {
                (1, d)
            } else {
                let (m, e) = climb_to_prefix(abs, d);
                ((m + 1) as nat, e)
            }
        },
    }
}

/// The path `p` relative to the current directory `cur`, given the outcome
/// `absolute` of making `p` absolute.
pub open spec fn spec_relative_from(
    p: Seq<u8>,
    absolute: Result<Seq<u8>, PathExtError>,
    cur: Option<Seq<u8>>,
) -> Result<Seq<u8>, PathExtError> {
    match absolute {
        Err(e) => Err(e),
        Ok(a) => match cur {
            None => Err(PathExtError::CurrDirNotFound),
            Some(c) => if path_starts_with(a, c) {
                Ok(tail_from(a, components(c).len() as int))
            } else {
                let (m, d) = climb_to_prefix(a, c);
                match path_strip_prefix(p, d) {
                    None => Err(PathExtError::StripPrefixError),
                    Some(t) => Ok(path_join(up_dirs(m), t)),
                }
            },
        },
    }
}

/// The path `p` relative to the current directory `cur`, given the home
/// directory `home`.
pub open spec fn spec_relative_path_buf(
    p: Seq<u8>,
    cur: Option<Seq<u8>>,
    home: Option<Seq<u8>>,
) -> Result<Seq<u8>, PathExtError> {
    spec_relative_from(p, spec_absolute_path_buf(p, cur, home), cur)
}

/// The relative form of `p` when there is one, else `p` itself.
pub open spec fn spec_relative_or_mine(
    p: Seq<u8>,
    cur: Option<Seq<u8>>,
    home: Option<Seq<u8>>,
) -> Seq<u8> {
    match spec_relative_path_buf(p, cur, home) {
        Ok(r) => r,
        Err(_) => p,
    }
}

/// Taking off the first component makes a path shorter.
pub proof fn lemma_tail_from_shorter(p: Seq<u8>)
    requires
        components(p).len() > 0,
    ensures
        tail_from(p, 1).len() < p.len(),
{
    lemma_spans_wf(p);
    let sp = spans(p);
    if sp.len() > 1 {
        assert(sp[0].1 <= sp[1].0);
        assert(sp[1].0 <= sp[sp.len() - 1].0);
    }
}

/// A parent is shorter than its child.
pub proof fn lemma_parent_shorter(p: Seq<u8>)
    requires
        path_parent(p) is Some,
    ensures
        path_parent(p).unwrap().len() < p.len(),
{
    lemma_spans_wf(p);
    let sp = spans(p);
    if sp.len() > 1 {
        assert(sp[sp.len() - 2].1 <= sp[sp.len() - 1].0);
        assert(sp[sp.len() - 1].0 < sp[sp.len() - 1].1 <= p.len());
        assert(0 <= sp[sp.len() - 2].0 < sp[sp.len() - 2].1);
        assert(path_parent(p).unwrap() == p.subrange(0, sp[sp.len() - 2].1));
    } else {
        assert(p.len() > 0);
    }
}

/// `../` repeated is `3 m` bytes long and ends with a separator.
pub proof fn lemma_up_dirs(m: nat)
    ensures
        up_dirs(m).len() == 3 * m,
        m > 0 ==> up_dirs(m).last() == SEPARATOR,
        !has_root(up_dirs(m)),
    decreases m,
{
    if m > 0 {
        lemma_up_dirs((m - 1) as nat);
        if m > 1 {
            assert(up_dirs(m)[0] == up_dirs((m - 1) as nat)[0]);
        }
    }
}

pub(crate) fn single_component(b: u8) -> (r: Vec<u8>)
    ensures
        r@ == seq![b],
{
    let mut v: Vec<u8> = Vec::new();
    v.push(b);
    v
}

pub(crate) fn parent_dir_bytes() -> (r: Vec<u8>)
    ensures
        r@ == parent_dir_component(),
{
    let mut v: Vec<u8> = Vec::new();
    v.push(DOT);
    v.push(DOT);
    v
}

/// Whether the first component of `p` is written `c`.
pub(crate) fn first_component_is_exec(p: &PathBuf, c: &[u8]) -> (r: bool)
    ensures
        r == first_component_is(p@, c@),
{
    let b = p.as_bytes();
    let sp = component_spans(b);
    if sp.len() == 0 {
        proof {
            lemma_spans_wf(p@);
        }
        return false;
    }
    proof {
        lemma_spans_wf(p@);
        assert(spans(p@)[0] == (sp@[0].0 as int, sp@[0].1 as int));
    }
    let (s, e) = sp[0];
    if e - s != c.len() {
        assert(components(p@)[0].len() != c@.len());
        return false;
    }
    let mut k: usize = 0;
    while k < c.len()
        invariant
            b@ == p@,
            spans(p@)[0] == (s as int, e as int),
            0 <= s < e <= b@.len(),
            e - s == c@.len(),
            components(p@).len() > 0,
            components(p@)[0] == b@.subrange(s as int, e as int),
            k <= c@.len(),
            forall|t: int| 0 <= t < k ==> #[trigger] components(p@)[0][t] == c@[t],
        decreases c@.len() - k,
    {
        if b[s + k] != c[k] {
            assert(components(p@)[0][k as int] != c@[k as int]);
            return false;
        }
        k = k + 1;
    }
    assert(components(p@)[0] =~= c@);
    true
}

/// `p` without its first component.
pub(crate) fn strip_first_component(p: &PathBuf) -> (r: PathBuf)
    ensures
        r@ == tail_from(p@, 1),
{
    let b = p.as_bytes();
    let sp = component_spans(b);
    PathBuf::from_bytes(tail_bytes(b, &sp, 1))
}

impl PathType {
    /// The kind of `path_arg`, by its first component.
    pub fn of(path_arg: &PathBuf) -> (r: PathType)
        ensures
            r == path_type(path_arg@),
    {
        let n = component_spans(path_arg.as_bytes()).len();
        proof {
            lemma_spans_wf(path_arg@);
        }
        if n == 0 {
            PathType::Empty
        } else if first_component_is_exec(path_arg, single_component(SEPARATOR).as_slice()) {
            PathType::Absolute
        } else if first_component_is_exec(path_arg, single_component(DOT).as_slice()) {
            PathType::RelativeCurDir
        } else if first_component_is_exec(path_arg, parent_dir_bytes().as_slice()) {
            PathType::RelativeParentDirs
        } else if first_component_is_exec(path_arg, single_component(TILDE).as_slice()) {
            PathType::RelativeHomeDir
        } else {
            PathType::RelativeCurDirImplicit
        }
    }
}

/// Replaces a leading `.` component by the current directory.
pub fn expand_current_dir(path_arg: &PathBuf, cur_dir: Option<&PathBuf>) -> (r: Result<
    PathBuf,
    PathExtError,
>)
    ensures
        path_result(r) == spec_expand_current_dir(path_arg@, opt_path(cur_dir)),
{
    if first_component_is_exec(path_arg, single_component(DOT).as_slice()) {
        match cur_dir {
            None => Err(PathExtError::CurrDirNotFound),
            Some(c) => Ok(c.join(&strip_first_component(path_arg))),
        }
    } else {
        Err(PathExtError::UnexpectedPrefix)
    }
}

/// Replaces each leading `..` component by a step up from the current
/// directory.
pub fn expand_parent_dirs(path_arg: &PathBuf, cur_dir: Option<&PathBuf>) -> (r: Result<
    PathBuf,
    PathExtError,
>)
    ensures
        path_result(r) == spec_expand_parent_dirs(path_arg@, opt_path(cur_dir)),
{
    let mut parent_dir = match cur_dir {
        None => return Err(PathExtError::CurrDirNotFound),
        Some(c) => c.to_path_buf(),
    };
    let mut path_tail = path_arg.to_path_buf();
    let parent = parent_dir_bytes();
    while first_component_is_exec(&path_tail, parent.as_slice())
        invariant
            parent@ == parent_dir_component(),
            spec_expand_parent_dirs(path_arg@, opt_path(cur_dir)) == climb_parents(
                path_tail@,
                parent_dir@,
            ),
        decreases path_tail@.len(),
    {
        parent_dir = match parent_dir.parent() {
            Some(d) => d,
            None => return Err(PathExtError::ParentDirNotFound),
        };
        proof {
            lemma_tail_from_shorter(path_tail@);
        }
        path_tail = strip_first_component(&path_tail);
    }
    Ok(parent_dir.join(&path_tail))
}

/// Replaces a leading `~` component by the home directory `home`.
pub fn expand_home_dir_with(path_arg: &PathBuf, home: Option<&PathBuf>) -> (r: Result<
    PathBuf,
    PathExtError,
>)
    ensures
        path_result(r) == spec_expand_home_dir(path_arg@, opt_path(home)),
{
    if first_component_is_exec(path_arg, single_component(TILDE).as_slice()) {
        match home {
            None => Err(PathExtError::HomeDirNotFound),
            Some(h) => Ok(h.join(&strip_first_component(path_arg))),
        }
    } else {
        Err(PathExtError::UnexpectedPrefix)
    }
}

/// Replaces a leading `~` component by the user's home directory, looking it
/// up only for such a path.
pub fn expand_home_dir(path_arg: &PathBuf) -> (r: Result<PathBuf, PathExtError>)
    ensures
        exists|home: Option<Seq<u8>>| reportable_home(home) && path_result(r) == spec_expand_home_dir(path_arg@, home),
        !first_component_is(path_arg@, home_component()) ==> r == Err::<PathBuf, PathExtError>(
            PathExtError::UnexpectedPrefix,
        ),
{
    if first_component_is_exec(path_arg, single_component(TILDE).as_slice()) {
        let home = home_dir();
        let home_ref = home.as_ref();
        let r = expand_home_dir_with(path_arg, home_ref);
        assert(reportable_home(opt_path(home_ref)));
        assert(path_result(r) == spec_expand_home_dir(path_arg@, opt_path(home_ref)));
        r
    } else {
        let r = Err(PathExtError::UnexpectedPrefix);
        assert(reportable_home(None));
        assert(path_result(r) == spec_expand_home_dir(path_arg@, None));
        r
    }
}

/// Puts a path that starts with an ordinary component (other than `~`), or
/// the empty path, under the current directory.
pub fn prepend_current_dir(path_arg: &PathBuf, cur_dir: Option<&PathBuf>) -> (r: Result<
    PathBuf,
    PathExtError,
>)
    ensures
        path_result(r) == spec_prepend_current_dir(path_arg@, opt_path(cur_dir)),
{
    match PathType::of(path_arg) {
        PathType::Empty => match cur_dir {
            None => Err(PathExtError::CurrDirNotFound),
            Some(c) => Ok(c.to_path_buf()),
        },
        PathType::RelativeCurDirImplicit => match cur_dir {
            None => Err(PathExtError::CurrDirNotFound),
            Some(c) => Ok(c.join(path_arg)),
        },
        _ => Err(PathExtError::UnexpectedPrefix),
    }
}

/// The absolute form of `path`, with `cur_dir` as the current directory and
/// `home` as the home directory.
pub fn absolute_path_buf_with(
    path: &PathBuf,
    cur_dir: Option<&PathBuf>,
    home: Option<&PathBuf>,
) -> (r: Result<PathBuf, PathExtError>)
    ensures
        path_result(r) == spec_absolute_path_buf(path@, opt_path(cur_dir), opt_path(home)),
{
    match PathType::of(path) {
        PathType::Absolute => Ok(path.to_path_buf()),
        PathType::RelativeCurDir => expand_current_dir(path, cur_dir),
        PathType::RelativeParentDirs => expand_parent_dirs(path, cur_dir),
        PathType::RelativeHomeDir => expand_home_dir_with(path, home),
        PathType::RelativeCurDirImplicit => prepend_current_dir(path, cur_dir),
        PathType::Empty => match cur_dir {
            None => Err(PathExtError::CurrDirNotFound),
            Some(c) => Ok(c.to_path_buf()),
        },
    }
}

/// The absolute form of `path`, with `cur_dir` as the current directory; the
/// home directory is looked up only for a path that starts with `~`.
pub fn absolute_path_buf(path: &PathBuf, cur_dir: Option<&PathBuf>) -> (r: Result<
    PathBuf,
    PathExtError,
>)
    ensures
        exists|home: Option<Seq<u8>>|
            reportable_home(home) && path_result(r) == spec_absolute_path_buf(path@, opt_path(cur_dir), home),
        path_type(path@) != PathType::RelativeHomeDir ==> path_result(r)
            == spec_absolute_path_buf(path@, opt_path(cur_dir), None),
{
    match PathType::of(path) {
        PathType::RelativeHomeDir => {
            let r = expand_home_dir(path);
            let ghost home = choose|home: Option<Seq<u8>>|
                reportable_home(home) && path_result(r) == spec_expand_home_dir(path@, home);
            assert(path_result(r) == spec_absolute_path_buf(path@, opt_path(cur_dir), home));
            r
        },
        _ => {
            let r = absolute_path_buf_with(path, cur_dir, None);
            assert(reportable_home(None));
            r
        },
    }
}

/// The path `path`, whose absolute form is `absolute`, relative to the
/// current directory `cur_dir`.
fn relative_from(path: &PathBuf, absolute: Result<PathBuf, PathExtError>, cur_dir: Option<&PathBuf>) -> (r:
    Result<PathBuf, PathExtError>)
    ensures
        path_result(r) == spec_relative_from(path@, path_result(absolute), opt_path(cur_dir)),
{
    let absolute_path = match absolute {
        Err(e) => return Err(e),
        Ok(a) => a,
    };
    let c = match cur_dir {
        None => return Err(PathExtError::CurrDirNotFound),
        Some(c) => c,
    };
    if absolute_path.starts_with(c) {
        return match absolute_path.strip_prefix(c) {
            Some(t) => Ok(t),
            None => Err(PathExtError::StripPrefixError),
        };
    }
    let mut cur = c.to_path_buf();
    let mut path_buf = PathBuf::new();
    let mut up: Vec<u8> = Vec::new();
    up.push(DOT);
    up.push(DOT);
    up.push(SEPARATOR);
    let up = PathBuf::from_bytes(up);
    let ghost mut steps: nat = 0;
    proof {
        lemma_up_dirs(0);
    }
    loop
        invariant_except_break
            !path_starts_with(absolute_path@, cur@),
            climb_to_prefix(absolute_path@, c@) == (
                (steps + climb_to_prefix(absolute_path@, cur@).0) as nat,
                climb_to_prefix(absolute_path@, cur@).1,
            ),
        invariant
            up@ == seq![DOT, DOT, SEPARATOR],
            path_buf@ == up_dirs(steps),
        ensures
            climb_to_prefix(absolute_path@, c@) == (steps, cur@),
            path_buf@ == up_dirs(steps),
        decreases cur@.len(),
    {
        proof {
            lemma_up_dirs(steps);
            lemma_up_dirs(steps + 1);
            assert(path_join(up_dirs(steps), up@) =~= up_dirs(steps + 1));
        }
        path_buf.push(&up);
        let ghost before = cur@;
        let ghost climbed = climb_to_prefix(absolute_path@, before);
        proof {
            steps = steps + 1;
        }
        if cur.pop() {
            proof {
                lemma_parent_shorter(before);
            }
            if absolute_path.starts_with(&cur) {
                assert(climbed == (1nat, cur@));
                break ;
            }
            assert(climbed == ((climb_to_prefix(absolute_path@, cur@).0 + 1) as nat,
                climb_to_prefix(absolute_path@, cur@).1));
        } else {
            assert(climbed == (1nat, cur@));
            break ;
        }
    }
    match path.strip_prefix(&cur) {
        None => Err(PathExtError::StripPrefixError),
        Some(t) => Ok(path_buf.join(&t)),
    }
}

/// `path` relative to the current directory `cur_dir`, with `home` as the
/// home directory: below the current directory it is what follows it;
/// elsewhere it climbs with `../` to the nearest ancestor of the current
/// directory that `path` lies under.
pub fn relative_path_buf_with(
    path: &PathBuf,
    cur_dir: Option<&PathBuf>,
    home: Option<&PathBuf>,
) -> (r: Result<PathBuf, PathExtError>)
    ensures
        path_result(r) == spec_relative_path_buf(path@, opt_path(cur_dir), opt_path(home)),
{
    let absolute = absolute_path_buf_with(path, cur_dir, home);
    relative_from(path, absolute, cur_dir)
}

/// `path` relative to the current directory `cur_dir`; the home directory is
/// looked up only for a path that starts with `~`.
pub fn relative_path_buf(path: &PathBuf, cur_dir: Option<&PathBuf>) -> (r: Result<
    PathBuf,
    PathExtError,
>)
    ensures
        exists|home: Option<Seq<u8>>|
            reportable_home(home) && path_result(r) == spec_relative_path_buf(path@, opt_path(cur_dir), home),
        path_type(path@) != PathType::RelativeHomeDir ==> path_result(r)
            == spec_relative_path_buf(path@, opt_path(cur_dir), None),
{
    let absolute = absolute_path_buf(path, cur_dir);
    let ghost home = choose|home: Option<Seq<u8>>|
        reportable_home(home) && path_result(absolute) == spec_absolute_path_buf(path@, opt_path(cur_dir), home);
    let r = relative_from(path, absolute, cur_dir);
    assert(path_result(r) == spec_relative_path_buf(path@, opt_path(cur_dir), home));
    r
}

/// `path` relative to the current directory `cur_dir` when that can be
/// worked out, else `path` itself.
pub fn relative_path_buf_or_mine(path: &PathBuf, cur_dir: Option<&PathBuf>) -> (r: PathBuf)
    ensures
        exists|home: Option<Seq<u8>>| reportable_home(home) && r@ == spec_relative_or_mine(path@, opt_path(cur_dir), home),
        path_type(path@) != PathType::RelativeHomeDir ==> r@ == spec_relative_or_mine(
            path@,
            opt_path(cur_dir),
            None,
        ),
{
    let rel = relative_path_buf(path, cur_dir);
    let ghost home = choose|home: Option<Seq<u8>>|
        reportable_home(home) && path_result(rel) == spec_relative_path_buf(path@, opt_path(cur_dir), home);
    let r = match rel {
        Ok(p) => p,
        Err(_) => path.to_path_buf(),
    };
    assert(r@ == spec_relative_or_mine(path@, opt_path(cur_dir), home));
    r
}

/// The text of `path`: the text its bytes encode where they are valid
/// UTF-8, with each invalid sequence replaced by U+FFFD otherwise.
pub fn path_to_string(path: &PathBuf) -> (r: String)
    ensures
        r@ == utf8_lossy(path@),
        valid_utf8(path@) ==> r@ == decode_utf8(path@),
{
    from_utf8_lossy(path.as_bytes())
}

} // verus!
