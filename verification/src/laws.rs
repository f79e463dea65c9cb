//! Properties of the library that span several of its functions, proved
//! over their specifications.

use vstd::prelude::*;
use vstd::utf8::{decode_utf8, encode_utf8, encode_utf8_decode_utf8, encode_utf8_valid_utf8, valid_utf8};

use crate::path_buf::{
    body_spans, components, has_leading_cur_dir, has_root, is_skipped_segment, lead_len,
    lemma_spans_wf, path_join, path_parent, path_starts_with, path_strip_prefix, spans,
    tail_from, DOT, SEPARATOR,
};
use crate::json::{entries_map, json_string_members, loaded};
use crate::home::reportable_home;
use crate::path_ext::{ancestor, parent_dirs_resolvable, PathError};
use crate::path_laws::{
    lemma_components_append, lemma_components_append_any, lemma_components_join,
    lemma_components_tail, lemma_components_tail_from, lemma_components_trailing_separator,
    lemma_scan_props,
};
use crate::recollections::{recalled, remembered};
use crate::resolve::{
    climb_parents, climb_to_prefix, cur_dir_component, first_component_is, home_component,
    parent_dir_component, path_type, spec_absolute_path_buf, spec_relative_or_mine,
    spec_relative_path_buf, up_dirs, PathExtError, PathType,
};

verus! {

/// `m` components `..`.
pub open spec fn parents(m: nat) -> Seq<Seq<u8>> {
    Seq::new(m, |i: int| parent_dir_component())
}

/// The first component is `/` exactly when the path starts at the root,
/// and `.` exactly when it starts with a `.` of its own.
pub proof fn lemma_first_component(p: Seq<u8>)
    requires
        components(p).len() > 0,
    ensures
        components(p)[0] == seq![SEPARATOR] <==> has_root(p),
        components(p)[0] == seq![DOT] <==> has_leading_cur_dir(p),
{
    let sp = spans(p);
    lemma_spans_wf(p);
    let l = lead_len(p);
    if l == 1 {
        assert(sp[0] == (0int, 1int));
        assert(components(p)[0] =~= seq![p[0]]);
        if has_root(p) {
            assert(components(p)[0] =~= seq![SEPARATOR]);
            assert(components(p)[0][0] != seq![DOT][0]);
        } else {
            assert(components(p)[0] =~= seq![DOT]);
            assert(components(p)[0][0] != seq![SEPARATOR][0]);
        }
    } else {
        lemma_scan_props(p, 0, 0);
        let body = body_spans(p, 0, 0);
        assert(sp == body);
        let (s, e) = (sp[0].0, sp[0].1);
        assert(sp[0] == sp[0]);
        assert(s <= s < e);
        assert(p[s] != SEPARATOR);
        assert(!is_skipped_segment(p, s, e));
        assert(components(p)[0] == p.subrange(s, e));
        assert(components(p)[0][0] == p[s]);
        assert(components(p)[0][0] != seq![SEPARATOR][0]);
        if components(p)[0] == seq![DOT] {
            assert(e - s == 1);
            assert(false);
        }
    }
}

/// A path with no leading root has a first component other than `/`; the
/// tail from a later component has no leading root.
proof fn lemma_tail_not_root(p: Seq<u8>, k: int)
    requires
        1 <= k,
    ensures
        !has_root(tail_from(p, k)),
        lead_len(tail_from(p, k)) == 0,
{
    if k < spans(p).len() {
        lemma_components_tail(p, k);
    }
}

/// The parent of a path that starts at the root starts at the root.
proof fn lemma_parent_keeps_root(p: Seq<u8>)
    requires
        has_root(p),
        path_parent(p) is Some,
    ensures
        has_root(path_parent(p).unwrap()),
        spans(p).len() >= 2,
{
    let sp = spans(p);
    lemma_spans_wf(p);
    assert(sp.len() >= 2);
    assert(sp[sp.len() - 2].0 < sp[sp.len() - 2].1);
    assert(sp[sp.len() - 2].1 >= 1);
    assert(path_parent(p).unwrap() == p.subrange(0, sp[sp.len() - 2].1));
    assert(path_parent(p).unwrap()[0] == p[0]);
}

/// Joining a path that does not start at the root onto one that does
/// keeps the root.
proof fn lemma_join_keeps_root(c: Seq<u8>, t: Seq<u8>)
    requires
        has_root(c),
        !has_root(t),
    ensures
        has_root(path_join(c, t)),
{
    let j = path_join(c, t);
    assert(j[0] == c[0]);
}

/// The components of `../` written `m` times.
proof fn lemma_up_dirs_components(m: nat)
    requires
        m >= 1,
    ensures
        components(up_dirs(m)) == parents(m),
        up_dirs(m).last() == SEPARATOR,
        lead_len(up_dirs(m)) == 0,
        up_dirs(m).len() >= 3,
        up_dirs(m)[0] == DOT,
        up_dirs(m)[1] == DOT,
    decreases m,
{
    let one = seq![DOT, DOT, SEPARATOR];
    assert(body_spans(one, 3, 3) =~= seq![]);
    assert(body_spans(one, 0, 2) =~= seq![(0int, 2int)]);
    assert(body_spans(one, 0, 1) == body_spans(one, 0, 2));
    assert(body_spans(one, 0, 0) == body_spans(one, 0, 1));
    assert(spans(one) =~= seq![(0int, 2int)]);
    assert(one.subrange(0, 2) =~= parent_dir_component());
    assert(components(one) =~= parents(1));
    if m == 1 {
        assert(up_dirs(0) =~= Seq::<u8>::empty());
        assert(up_dirs(1) =~= one);
    } else {
        lemma_up_dirs_components((m - 1) as nat);
        let prev = up_dirs((m - 1) as nat);
        assert(up_dirs(m) == prev + one);
        lemma_components_append(prev, one);
        assert(parents((m - 1) as nat) + parents(1) =~= parents(m));
        assert(up_dirs(m)[0] == prev[0]);
        assert(up_dirs(m)[1] == prev[1]);
    }
}

/// Climbing from a directory that starts at the root reaches, in at least
/// one step, a directory that starts at the root; when the absolute path
/// `a` starts at the root, that directory is an ancestor that `a` lies
/// under.
proof fn lemma_climb_to_prefix(a: Seq<u8>, dir: Seq<u8>)
    requires
        has_root(dir),
    ensures
        climb_to_prefix(a, dir).0 >= 1,
        has_root(climb_to_prefix(a, dir).1),
        has_root(a) && !path_starts_with(a, dir) ==> ancestor(dir, climb_to_prefix(a, dir).0)
            == Some(climb_to_prefix(a, dir).1) && path_starts_with(a, climb_to_prefix(a, dir).1),
    decreases dir.len(),
{
    match path_parent(dir) {
        None => {
            lemma_spans_wf(dir);
            lemma_first_component(dir);
            if has_root(a) {
                lemma_spans_wf(a);
                lemma_first_component(a);
                assert(components(dir) =~= seq![seq![SEPARATOR]]);
                assert(path_starts_with(a, dir));
            }
        },
        Some(d) => {
            crate::resolve::lemma_parent_shorter(dir);
            lemma_parent_keeps_root(dir);
            if !path_starts_with(a, d) {
                lemma_climb_to_prefix(a, d);
                let (m, e) = climb_to_prefix(a, d);
                assert(climb_to_prefix(a, dir) == ((m + 1) as nat, e));
                assert(ancestor(dir, (m + 1) as nat) == ancestor(d, m));
            } else {
                assert(ancestor(dir, 1) == ancestor(d, 0));
            }
        },
    }
}

/// Taking the leading `..` components off `tail` one by one from `dir`
/// ends `j` steps up, with the rest of `tail` appended.
proof fn lemma_climb_parents(tail: Seq<u8>, dir: Seq<u8>, j: nat, rest: Seq<Seq<u8>>, e: Seq<u8>)
    requires
        components(tail) == parents(j) + rest,
        rest.len() == 0 || rest[0] != parent_dir_component(),
        lead_len(tail) == 0,
        ancestor(dir, j) == Some(e),
        e.len() > 0,
    ensures
        climb_parents(tail, dir) matches Ok(x) && components(x) == components(e) + rest,
    decreases j,
{
    if j == 0 {
        assert(components(tail) =~= rest);
        if first_component_is(tail, parent_dir_component()) {
            assert(false);
        }
        lemma_components_join(dir, tail);
    } else {
        assert(components(tail)[0] == parent_dir_component());
        let d = path_parent(dir).unwrap();
        let next = tail_from(tail, 1);
        crate::resolve::lemma_tail_from_shorter(tail);
        if spans(tail).len() > 1 {
            lemma_components_tail(tail, 1);
        } else {
            assert(body_spans(next, 0, 0) =~= seq![]);
        }
        assert(components(next) =~= parents((j - 1) as nat) + rest);
        lemma_climb_parents(next, d, (j - 1) as nat, rest, e);
    }
}

/// Where the relative form of the absolute path `p` picks up the
/// components of `p`: after the current directory `c` when `p` lies below
/// it, else after the ancestor of `c` that the climb reaches.
pub open spec fn relative_start(p: Seq<u8>, c: Seq<u8>) -> int {
    if path_starts_with(p, c) {
        components(c).len() as int
    } else {
        components(climb_to_prefix(p, c).1).len() as int
    }
}

/// Making an absolute path relative to an absolute current directory and
/// then absolute again gives the same components, unless the part of the
/// path that the relative form keeps starts with `..`, or with `~` where
/// the path lies below the current directory.
pub proof fn law_relative_then_absolute(p: Seq<u8>, c: Seq<u8>)
    requires
        has_root(p),
        has_root(c),
        relative_start(p, c) < components(p).len() ==> components(p)[relative_start(p, c)]
            != parent_dir_component(),
        path_starts_with(p, c) && relative_start(p, c) < components(p).len() ==> components(
            p,
        )[relative_start(p, c)] != home_component(),
    ensures
        spec_relative_path_buf(p, Some(c), None) matches Ok(r) && spec_absolute_path_buf(
            r,
            Some(c),
            None,
        ) matches Ok(a) && components(a) == components(p),
{
    let cp = components(p);
    let cc = components(c);
    lemma_spans_wf(p);
    lemma_spans_wf(c);
    lemma_first_component(p);
    assert(path_type(p) == PathType::Absolute);
    assert(spec_absolute_path_buf(p, Some(c), None) == Ok::<Seq<u8>, crate::resolve::PathExtError>(p));
    if path_starts_with(p, c) {
        let k = cc.len() as int;
        let r = tail_from(p, k);
        assert(spec_relative_path_buf(p, Some(c), None) == Ok::<Seq<u8>, crate::resolve::PathExtError>(r));
        if k == cp.len() {
            assert(r =~= seq![]);
            assert(spans(r) =~= seq![]);
            assert(path_type(r) == PathType::Empty);
            assert(cp =~= cc);
        } else {
            lemma_components_tail(p, k);
            lemma_first_component(r);
            assert(components(r)[0] == cp[k]);
            assert(path_type(r) == PathType::RelativeCurDirImplicit);
            lemma_components_join(c, r);
            assert(cc + cp.skip(k) =~= cp);
        }
    } else {
        lemma_climb_to_prefix(p, c);
        let (m, d) = climb_to_prefix(p, c);
        let cd = components(d);
        let kd = cd.len() as int;
        lemma_spans_wf(d);
        let t = tail_from(p, kd);
        assert(path_strip_prefix(p, d) == Some(t));
        lemma_tail_not_root(p, kd);
        lemma_up_dirs_components(m);
        let r = path_join(up_dirs(m), t);
        assert(r == up_dirs(m) + t);
        assert(spec_relative_path_buf(p, Some(c), None) == Ok::<Seq<u8>, crate::resolve::PathExtError>(r));
        lemma_components_append(up_dirs(m), t);
        let rest = cp.skip(kd);
        if kd < cp.len() {
            lemma_components_tail(p, kd);
        } else {
            assert(t =~= seq![]);
            assert(body_spans(t, 0, 0) =~= seq![]);
            assert(components(t) =~= rest);
        }
        assert(components(r) == parents(m) + rest);
        assert(r[0] == DOT && r[1] == DOT);
        assert(lead_len(r) == 0);
        assert(components(r)[0] == parent_dir_component());
        assert(parent_dir_component().len() == 2);
        assert(components(r)[0] != seq![SEPARATOR]);
        assert(components(r)[0] != seq![DOT]);
        assert(path_type(r) == PathType::RelativeParentDirs);
        lemma_climb_parents(r, c, m, rest, d);
        assert(cd + rest =~= cp);
    }
}

/// A path is of the absolute kind exactly when it starts at the root.
pub proof fn law_absolute_kind_is_root(p: Seq<u8>)
    ensures
        path_type(p) == PathType::Absolute <==> has_root(p),
{
    lemma_spans_wf(p);
    if components(p).len() > 0 {
        lemma_first_component(p);
    }
}

/// Climbing `..` components from a directory that starts at the root, with
/// a tail that does not, ends at a path that starts at the root.
proof fn lemma_climb_parents_root(tail: Seq<u8>, dir: Seq<u8>)
    requires
        has_root(dir),
        !has_root(tail),
    ensures
        climb_parents(tail, dir) matches Ok(x) ==> has_root(x),
    decreases tail.len(),
{
    if first_component_is(tail, parent_dir_component()) {
        match path_parent(dir) {
            None => {},
            Some(d) => {
                lemma_parent_keeps_root(dir);
                crate::resolve::lemma_tail_from_shorter(tail);
                lemma_tail_not_root(tail, 1);
                lemma_climb_parents_root(tail_from(tail, 1), d);
            },
        }
    } else {
        lemma_join_keeps_root(dir, tail);
    }
}

/// With a current directory and a home directory that start at the root,
/// the absolute form of any path starts at the root.
pub proof fn law_absolute_is_absolute(p: Seq<u8>, cur: Option<Seq<u8>>, home: Option<Seq<u8>>)
    requires
        cur matches Some(c) ==> has_root(c),
        home matches Some(h) ==> has_root(h),
    ensures
        spec_absolute_path_buf(p, cur, home) matches Ok(a) ==> has_root(a),
{
    lemma_spans_wf(p);
    if components(p).len() > 0 {
        lemma_first_component(p);
    }
    lemma_tail_not_root(p, 1);
    match path_type(p) {
        PathType::RelativeParentDirs => {
            if let Some(c) = cur {
                lemma_climb_parents_root(p, c);
            }
        },
        PathType::RelativeCurDir => {
            if let Some(c) = cur {
                lemma_join_keeps_root(c, tail_from(p, 1));
            }
        },
        PathType::RelativeHomeDir => {
            if let Some(h) = home {
                lemma_join_keeps_root(h, tail_from(p, 1));
            }
        },
        PathType::RelativeCurDirImplicit => {
            if let Some(c) = cur {
                lemma_join_keeps_root(c, p);
            }
        },
        _ => {},
    }
}

/// With a current directory that starts at the root, a relative form, when
/// there is one, does not start at the root.
pub proof fn law_relative_is_relative(p: Seq<u8>, c: Seq<u8>, home: Option<Seq<u8>>)
    requires
        has_root(c),
    ensures
        spec_relative_path_buf(p, Some(c), home) matches Ok(r) ==> !has_root(r),
{
    lemma_spans_wf(c);
    if let Ok(a) = spec_absolute_path_buf(p, Some(c), home) {
        if path_starts_with(a, c) {
            lemma_tail_not_root(a, components(c).len() as int);
        } else {
            lemma_climb_to_prefix(a, c);
            let (m, d) = climb_to_prefix(a, c);
            lemma_spans_wf(d);
            lemma_tail_not_root(p, components(d).len() as int);
            lemma_up_dirs_components(m);
        }
    }
}

/// An ancestor of a directory that starts at the root starts at the root.
proof fn lemma_ancestor_keeps_root(dir: Seq<u8>, m: nat)
    requires
        has_root(dir),
        ancestor(dir, m) is Some,
    ensures
        has_root(ancestor(dir, m).unwrap()),
    decreases m,
{
    if m > 0 {
        lemma_parent_keeps_root(dir);
        lemma_ancestor_keeps_root(path_parent(dir).unwrap(), (m - 1) as nat);
    }
}

/// A component after the first does not start with a separator.
proof fn lemma_component_not_root(p: Seq<u8>, i: int)
    requires
        1 <= i < components(p).len(),
    ensures
        components(p)[i].len() > 0,
        components(p)[i][0] != SEPARATOR,
{
    let sp = spans(p);
    let l = lead_len(p);
    lemma_spans_wf(p);
    lemma_scan_props(p, l, l);
    let body = body_spans(p, l, l);
    assert(sp =~= sp.take(l) + body);
    assert(body[i - l] == sp[i]);
    let s = sp[i].0;
    assert(body[i - l].0 <= s < body[i - l].1);
    assert(p[s] != SEPARATOR);
    assert(components(p)[i] == p.subrange(s, sp[i].1));
}

/// The path-extension flavour: with a current directory and a home
/// directory that start at the root, the absolute form starts at the root.
pub proof fn law_ext_absolute_is_absolute(p: Seq<u8>, cur: Option<Seq<u8>>, home: Option<Seq<u8>>)
    requires
        cur matches Some(c) ==> has_root(c),
        home matches Some(h) ==> has_root(h),
        parent_dirs_resolvable(p, cur),
    ensures
        crate::path_ext::spec_absolute_path_buf(p, cur, home) matches Ok(a) ==> has_root(a),
{
    lemma_spans_wf(p);
    if components(p).len() > 0 {
        lemma_first_component(p);
    }
    lemma_tail_not_root(p, 1);
    if !has_root(p) {
        if first_component_is(p, home_component()) {
            if let Some(h) = home {
                lemma_join_keeps_root(h, tail_from(p, 1));
            }
        } else if let Some(c) = cur {
            let cs = components(p);
            if cs.len() > 0 {
                if cs[0] == parent_dir_component() {
                    let m = crate::path_ext::leading_parents_from(cs, 0);
                    lemma_ancestor_keeps_root(c, m);
                    let d = ancestor(c, m).unwrap();
                    lemma_leading_parents_positive(cs);
                    let next = if m < cs.len() {
                        cs[m as int]
                    } else {
                        parent_dir_component()
                    };
                    if m < cs.len() {
                        lemma_component_not_root(p, m as int);
                    }
                    lemma_join_keeps_root(d, next);
                    lemma_tail_not_root(p, (m + 1) as int);
                    lemma_join_keeps_root(path_join(d, next), tail_from(p, (m + 1) as int));
                } else if cs[0] == cur_dir_component() {
                    lemma_join_keeps_root(c, tail_from(p, 1));
                } else {
                    lemma_join_keeps_root(c, p);
                }
            }
        }
    }
}

proof fn lemma_leading_parents_positive(cs: Seq<Seq<u8>>)
    requires
        cs.len() > 0,
        cs[0] == parent_dir_component(),
    ensures
        crate::path_ext::leading_parents_from(cs, 0) >= 1,
{
}

/// The path-extension flavour: with a current directory that starts at the
/// root, a relative form, when there is one, does not start at the root.
pub proof fn law_ext_relative_is_relative(p: Seq<u8>, c: Seq<u8>, home: Option<Seq<u8>>)
    requires
        has_root(c),
    ensures
        crate::path_ext::spec_relative_path_buf(p, Some(c), home) matches Ok(r) ==> !has_root(r),
{
    lemma_spans_wf(c);
    if let Ok(a) = crate::path_ext::spec_absolute_path_buf(p, Some(c), home) {
        lemma_tail_not_root(a, components(c).len() as int);
    }
}

/// The path-extension flavour: an absolute path below an absolute current
/// directory, made relative and then absolute again, has the same
/// components, unless the part below the current directory starts with
/// `..` or `~`.
pub proof fn law_ext_relative_then_absolute(p: Seq<u8>, c: Seq<u8>, home: Option<Seq<u8>>)
    requires
        has_root(p),
        has_root(c),
        path_starts_with(p, c),
        components(c).len() < components(p).len() ==> components(p)[components(c).len() as int]
            != parent_dir_component() && components(p)[components(c).len() as int]
            != home_component(),
    ensures
        crate::path_ext::spec_relative_path_buf(p, Some(c), home) matches Ok(r) && (
        parent_dirs_resolvable(r, Some(c)) && (crate::path_ext::spec_absolute_path_buf(
            r,
            Some(c),
            home,
        ) matches Ok(a) && components(a) == components(p))),
{
    let cp = components(p);
    let cc = components(c);
    lemma_spans_wf(p);
    lemma_spans_wf(c);
    let k = cc.len() as int;
    let r = tail_from(p, k);
    if k == cp.len() {
        assert(r =~= seq![]);
        assert(spans(r) =~= seq![]);
        assert(cp =~= cc);
    } else {
        lemma_components_tail(p, k);
        lemma_first_component(r);
        assert(components(r)[0] == cp[k]);
        lemma_components_join(c, r);
        assert(cc + cp.skip(k) =~= cp);
    }
}

/// Once the store has a data file, recalling a name just remembered gives
/// the value remembered, and recalling any other name gives what it gave
/// before; while it has none, remembering leaves the store as it is.
pub proof fn law_recall_after_remember(
    data_file: Option<Seq<u8>>,
    store: Map<Seq<char>, Seq<char>>,
    name: Seq<char>,
    value: Seq<char>,
    other: Seq<char>,
)
    ensures
        data_file is Some ==> recalled(remembered(data_file, store, name, value), name) == Some(
            value,
        ),
        other != name ==> recalled(remembered(data_file, store, name, value), other) == recalled(
            store,
            other,
        ),
        data_file is None ==> remembered(data_file, store, name, value) == store,
{
}

/// The store after remembering each pair of `run` in turn.
pub open spec fn remembered_run(
    data_file: Option<Seq<u8>>,
    store: Map<Seq<char>, Seq<char>>,
    run: Seq<(Seq<char>, Seq<char>)>,
) -> Map<Seq<char>, Seq<char>>
    decreases run.len(),
{
    if run.len() == 0 {
        store
    } else {
        remembered(data_file, remembered_run(data_file, store, run.drop_last()), run.last().0, run.last().1)
    }
}

/// The value of the last pair of `run` for `name`, if there is one.
pub open spec fn last_remembered(run: Seq<(Seq<char>, Seq<char>)>, name: Seq<char>) -> Option<
    Seq<char>,
>
    decreases run.len(),
{
    if run.len() == 0 {
        None
    } else if run.last().0 == name {
        Some(run.last().1)
    } else {
        last_remembered(run.drop_last(), name)
    }
}

/// One more `remember` extends the run of values remembered: the store it
/// leaves is the store after the longer run.
pub proof fn law_remember_extends_run(
    data_file: Option<Seq<u8>>,
    store: Map<Seq<char>, Seq<char>>,
    run: Seq<(Seq<char>, Seq<char>)>,
    name: Seq<char>,
    value: Seq<char>,
)
    ensures
        remembered(data_file, remembered_run(data_file, store, run), name, value) == remembered_run(
            data_file,
            store,
            run.push((name, value)),
        ),
{
    assert(run.push((name, value)).drop_last() =~= run);
}

proof fn lemma_recalled_run(
    data_file: Seq<u8>,
    store: Map<Seq<char>, Seq<char>>,
    run: Seq<(Seq<char>, Seq<char>)>,
    name: Seq<char>,
)
    ensures
        recalled(remembered_run(Some(data_file), store, run), name) == match last_remembered(
            run,
            name,
        ) {
            Some(v) => Some(v),
            None => recalled(store, name),
        },
    decreases run.len(),
{
    if run.len() > 0 {
        lemma_recalled_run(data_file, store, run.drop_last(), name);
    }
}

/// Named strings are kept from one session to the next: where a data file
/// holds text that loads as the store after a run of `remember` calls (the
/// text the last of them hands back to write), a later session that reads
/// the file (as `init` does, through `json_string_members`) succeeds, and
/// recalls each name as the last value remembered for it in the run, or as
/// the store did before the run where the run has none.
pub proof fn law_later_session_recalls(
    written: Seq<u8>,
    data_file: Seq<u8>,
    store: Map<Seq<char>, Seq<char>>,
    run: Seq<(Seq<char>, Seq<char>)>,
    name: Seq<char>,
)
    requires
        loaded(written) == Some(remembered_run(Some(data_file), store, run)),
    ensures
        json_string_members(written) matches Some(m) && recalled(entries_map(m), name)
            == match last_remembered(run, name) {
            Some(v) => Some(v),
            None => recalled(store, name),
        },
{
    lemma_recalled_run(data_file, store, run, name);
}

/// A path that starts with the components of `c`, with those taken off and
/// `c` put back in front, has its components again.
proof fn lemma_join_stripped(a: Seq<u8>, c: Seq<u8>)
    requires
        path_starts_with(a, c),
    ensures
        components(path_join(c, tail_from(a, components(c).len() as int))) == components(a),
{
    let k = components(c).len() as int;
    let r = tail_from(a, k);
    lemma_spans_wf(a);
    lemma_spans_wf(c);
    lemma_components_tail_from(a, k);
    if c.len() == 0 {
        assert(path_join(c, r) =~= r);
    } else {
        if k < components(a).len() {
            lemma_components_tail(a, k);
        } else {
            assert(r =~= seq![]);
        }
        lemma_components_join(c, r);
    }
    assert(components(a).take(k) =~= components(c));
    assert(components(a).take(k) + components(a).skip(k) =~= components(a));
}

/// The home directory `h` (not empty) put in place of the leading `~` of
/// `p` has the components of `h` followed by those of `p` after the `~`.
proof fn lemma_home_join(p: Seq<u8>, h: Seq<u8>)
    requires
        first_component_is(p, home_component()),
        h.len() > 0,
    ensures
        components(path_join(h, tail_from(p, 1))) == components(h) + components(p).skip(1),
{
    lemma_spans_wf(p);
    let t = tail_from(p, 1);
    if components(p).len() == 1 {
        assert(t =~= seq![]);
        lemma_components_join(h, t);
        assert(components(p).skip(1) =~= seq![]);
        assert(components(t) =~= components(p).skip(1));
    } else {
        lemma_components_tail(p, 1);
        lemma_components_join(h, t);
    }
}

/// The path-extension flavour: the current directory joined with the
/// relative form of a path has the components of the path's absolute form.
pub proof fn law_ext_join_relative_gives_absolute(
    p: Seq<u8>,
    c: Seq<u8>,
    home: Option<Seq<u8>>,
)
    ensures
        crate::path_ext::spec_relative_path_buf(p, Some(c), home) matches Ok(r)
            ==> (crate::path_ext::spec_absolute_path_buf(p, Some(c), home) matches Ok(a)
            && components(path_join(c, r)) == components(a)),
{
    if let Ok(a) = crate::path_ext::spec_absolute_path_buf(p, Some(c), home) {
        if path_starts_with(a, c) {
            lemma_join_stripped(a, c);
        }
    }
}

/// A path that starts with `~` is made absolute from the home directory
/// alone: with a home directory `h` that the lookup can report, its
/// components are those of `h` followed by the path's after the `~`,
/// whatever the current directory; with none, the answer is
/// `HomeDirNotFound`.
pub proof fn law_tilde_absolute(
    p: Seq<u8>,
    cur: Option<Seq<u8>>,
    other_cur: Option<Seq<u8>>,
    home: Option<Seq<u8>>,
)
    requires
        path_type(p) == PathType::RelativeHomeDir,
        reportable_home(home),
    ensures
        spec_absolute_path_buf(p, cur, home) == spec_absolute_path_buf(p, other_cur, home),
        home is None ==> spec_absolute_path_buf(p, cur, home) == Err::<Seq<u8>, PathExtError>(
            PathExtError::HomeDirNotFound,
        ),
        home matches Some(h) ==> (spec_absolute_path_buf(p, cur, home) matches Ok(a) && components(
            a,
        ) == components(h) + components(p).skip(1)),
{
    if let Some(h) = home {
        lemma_home_join(p, h);
    }
}

/// The path-extension flavour of `law_tilde_absolute`.
pub proof fn law_ext_tilde_absolute(
    p: Seq<u8>,
    cur: Option<Seq<u8>>,
    other_cur: Option<Seq<u8>>,
    home: Option<Seq<u8>>,
)
    requires
        first_component_is(p, home_component()),
        reportable_home(home),
    ensures
        crate::path_ext::spec_absolute_path_buf(p, cur, home)
            == crate::path_ext::spec_absolute_path_buf(p, other_cur, home),
        home is None ==> crate::path_ext::spec_absolute_path_buf(p, cur, home) == Err::<
            Seq<u8>,
            PathError,
        >(PathError::HomeDirNotFound),
        home matches Some(h) ==> (crate::path_ext::spec_absolute_path_buf(p, cur, home) matches Ok(
            a,
        ) && components(a) == components(h) + components(p).skip(1)),
{
    lemma_spans_wf(p);
    lemma_first_component(p);
    assert(components(p)[0][0] != SEPARATOR);
    assert(!has_root(p));
    if let Some(h) = home {
        lemma_home_join(p, h);
    }
}

/// The relative form of a path that starts with `~` comes from its absolute
/// form built with the home directory: `HomeDirNotFound` exactly when there
/// is no home directory, and where the home directory with the rest of the
/// path lies under the current directory `c`, a path that `c` joined with
/// gives the components of the home directory followed by the path's after
/// the `~`.
pub proof fn law_tilde_relative(p: Seq<u8>, c: Seq<u8>, home: Option<Seq<u8>>)
    requires
        path_type(p) == PathType::RelativeHomeDir,
        reportable_home(home),
    ensures
        home is None ==> spec_relative_path_buf(p, Some(c), home) == Err::<Seq<u8>, PathExtError>(
            PathExtError::HomeDirNotFound,
        ),
        home matches Some(h) ==> spec_relative_path_buf(p, Some(c), home) != Err::<
            Seq<u8>,
            PathExtError,
        >(PathExtError::HomeDirNotFound),
        home matches Some(h) ==> (path_starts_with(path_join(h, tail_from(p, 1)), c)
            ==> (spec_relative_path_buf(p, Some(c), home) matches Ok(r) && components(
            path_join(c, r),
        ) == components(h) + components(p).skip(1))),
{
    if let Some(h) = home {
        lemma_home_join(p, h);
        let a = path_join(h, tail_from(p, 1));
        if path_starts_with(a, c) {
            lemma_join_stripped(a, c);
        }
    }
}

/// The path-extension flavour of `law_tilde_relative`: with a home
/// directory there is a relative form exactly when the home directory with
/// the rest of the path lies under the current directory.
pub proof fn law_ext_tilde_relative(p: Seq<u8>, c: Seq<u8>, home: Option<Seq<u8>>)
    requires
        first_component_is(p, home_component()),
        reportable_home(home),
    ensures
        home is None ==> crate::path_ext::spec_relative_path_buf(p, Some(c), home) == Err::<
            Seq<u8>,
            PathError,
        >(PathError::HomeDirNotFound),
        home matches Some(h) ==> (crate::path_ext::spec_relative_path_buf(p, Some(c), home) is Ok
            <==> path_starts_with(path_join(h, tail_from(p, 1)), c)),
        home matches Some(h) ==> (crate::path_ext::spec_relative_path_buf(p, Some(c), home) matches Ok(
            r,
        ) ==> components(path_join(c, r)) == components(h) + components(p).skip(1)),
{
    lemma_spans_wf(p);
    lemma_first_component(p);
    assert(components(p)[0][0] != SEPARATOR);
    assert(!has_root(p));
    if let Some(h) = home {
        lemma_home_join(p, h);
        let a = path_join(h, tail_from(p, 1));
        if path_starts_with(a, c) {
            lemma_join_stripped(a, c);
        }
    }
}

/// The data file of a path that starts with `~`: where the path is made
/// absolute with a home directory the lookup can report, that home
/// directory is there, and the data file's components are its components
/// followed by the path's after the `~` (the current directory plays no
/// part).
pub proof fn law_tilde_data_file(
    given: Seq<u8>,
    cur: Option<Seq<u8>>,
    home: Option<Seq<u8>>,
    file: Seq<u8>,
)
    requires
        path_type(given) == PathType::RelativeHomeDir,
        reportable_home(home),
        spec_absolute_path_buf(given, cur, home) == Ok::<Seq<u8>, PathExtError>(file),
    ensures
        home matches Some(h) && h.len() > 0 && components(file) == components(h) + components(
            given,
        ).skip(1),
{
    law_tilde_absolute(given, cur, cur, home);
}

/// Joining a path that does not start at the root onto a non-empty path
/// keeps the kind of the path.
pub proof fn law_join_keeps_kind(p: Seq<u8>, q: Seq<u8>)
    requires
        path_type(p) != PathType::Empty,
        !has_root(q),
    ensures
        path_type(path_join(p, q)) == path_type(p),
{
    lemma_spans_wf(p);
    let j = path_join(p, q);
    if p.last() != SEPARATOR {
        let d = p + seq![SEPARATOR];
        lemma_components_trailing_separator(p);
        lemma_components_append_any(d, q);
        assert(j == d + q);
        assert(components(j)[0] == components(d)[0]);
    } else {
        lemma_components_append_any(p, q);
        assert(components(j)[0] == components(p)[0]);
    }
}

/// The relative form or, where there is none, the path itself: what
/// `relative_path_buf_or_mine` gives for a home directory `home` is what
/// `relative_path_buf` gives for it, with the path in place of an error.
pub proof fn law_or_mine_falls_back(p: Seq<u8>, cur: Option<Seq<u8>>, home: Option<Seq<u8>>)
    ensures
        spec_relative_or_mine(p, cur, home) == match spec_relative_path_buf(p, cur, home) {
            Ok(r) => r,
            Err(_) => p,
        },
{
}

/// A path made from a string (`PathBuf::from_str`, whose bytes are the
/// string's UTF-8 encoding) gives that string back as its text
/// (`path_to_string` decodes valid UTF-8 as it is).
pub proof fn law_text_path_round_trip(s: Seq<char>)
    ensures
        valid_utf8(encode_utf8(s)),
        decode_utf8(encode_utf8(s)) == s,
{
    encode_utf8_valid_utf8(s);
    encode_utf8_decode_utf8(s);
}

} // verus!
