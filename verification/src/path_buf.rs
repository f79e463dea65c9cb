//! A Unix path held as its bytes, with the component structure that
//! path iteration gives it: a leading root (`/`) or current directory (`.`),
//! then the segments between separators, where empty segments and `.`
//! segments are skipped.

use vstd::prelude::*;
use vstd::slice::{slice_subrange, slice_to_vec};
use vstd::std_specs::cmp::PartialEqSpecImpl;
use vstd::string::StringSliceAdditionalSpecFns;

use crate::path_laws::{lemma_components_join, lemma_components_parent, lemma_components_tail_from};

verus! {

/// The path separator `/`.
pub const SEPARATOR: u8 = 47;

/// The byte `.`.
pub const DOT: u8 = 46;

/// The byte `~`.
pub const TILDE: u8 = 126;

/// Whether the segment `p[s..e]` is one that component iteration skips:
/// it is empty, or it is a lone `.`.
pub open spec fn is_skipped_segment(p: Seq<u8>, s: int, e: int) -> bool {
    e - s == 0 || (e - s == 1 && p[s] == DOT)
}

/// The spans `(start, end)` of the components of `p` that follow byte `i`,
/// where the segment being scanned began at byte `start`.
pub open spec fn body_spans(p: Seq<u8>, start: int, i: int) -> Seq<(int, int)>
    decreases p.len() - i,
{
    if i >= p.len() {
        if is_skipped_segment(p, start, p.len() as int) {
            seq![]
        } else {
            seq![(start, p.len() as int)]
        }
    } else if p[i] == SEPARATOR {
        let rest = body_spans(p, i + 1, i + 1);
        if is_skipped_segment(p, start, i) {
            rest
        } else {
            seq![(start, i)] + rest
        }
    } else {
        body_spans(p, start, i + 1)
    }
}

/// The path starts at the root.
pub open spec fn has_root(p: Seq<u8>) -> bool {
    p.len() > 0 && p[0] == SEPARATOR
}

/// The path starts with a `.` component of its own (`.` or `./...`).
pub open spec fn has_leading_cur_dir(p: Seq<u8>) -> bool {
    !has_root(p) && p.len() > 0 && p[0] == DOT && (p.len() == 1 || p[1] == SEPARATOR)
}

/// Number of bytes taken by a leading root or `.` component.
pub open spec fn lead_len(p: Seq<u8>) -> int {
    if has_root(p) || has_leading_cur_dir(p) {
        1
    } else {
        0
    }
}

/// The byte spans of all components of `p`, in order.
pub open spec fn spans(p: Seq<u8>) -> Seq<(int, int)> {
    if lead_len(p) == 1 {
        seq![(0int, 1int)] + body_spans(p, 1, 1)
    } else {
        body_spans(p, 0, 0)
    }
}

/// The components of `p`, each as the bytes it is written with:
/// the root is `/`, a leading current directory is `.`, a parent is `..`.
pub open spec fn components(p: Seq<u8>) -> Seq<Seq<u8>> {
    Seq::new(spans(p).len(), |j: int| p.subrange(spans(p)[j].0, spans(p)[j].1))
}

/// Spans as integers.
pub open spec fn spans_view(v: Seq<(usize, usize)>) -> Seq<(int, int)> {
    Seq::new(v.len(), |j: int| (v[j].0 as int, v[j].1 as int))
}

/// Each span lies within `lo..hi` and is not empty.
pub open spec fn spans_within(s: Seq<(int, int)>, lo: int, hi: int) -> bool {
    forall|j: int| 0 <= j < s.len() ==> lo <= #[trigger] s[j].0 < s[j].1 <= hi
}

/// Each span ends before the next one begins.
pub open spec fn spans_sorted(s: Seq<(int, int)>) -> bool {
    forall|j: int, k: int| 0 <= j < k < s.len() ==> #[trigger] s[j].1 <= #[trigger] s[k].0
}

proof fn lemma_cons_span_wf(x: (int, int), rest: Seq<(int, int)>, lo: int, hi: int)
    requires
        lo <= x.0 < x.1 <= hi,
        spans_within(rest, x.1, hi),
        spans_sorted(rest),
    ensures
        spans_within(seq![x] + rest, lo, hi),
        spans_sorted(seq![x] + rest),
{
    let all = seq![x] + rest;
    assert forall|j: int| 0 <= j < all.len() implies lo <= #[trigger] all[j].0 < all[j].1
        <= hi by {
        if j > 0 {
            assert(all[j] == rest[j - 1]);
        }
    }
    assert forall|j: int, k: int| 0 <= j < k < all.len() implies #[trigger] all[j].1
        <= #[trigger] all[k].0 by {
        assert(all[k] == rest[k - 1]);
        if j > 0 {
            assert(all[j] == rest[j - 1]);
        }
    }
}

/// Every span of a scan that begins at `start` lies within `start..p.len()`,
/// is not empty, and ends before the next one begins.
pub proof fn lemma_body_spans_wf(p: Seq<u8>, start: int, i: int)
    requires
        0 <= start <= i,
        start <= p.len(),
    ensures
        spans_within(body_spans(p, start, i), start, p.len() as int),
        spans_sorted(body_spans(p, start, i)),
    decreases p.len() - i,
{
    if i >= p.len() {
    } else if p[i] == SEPARATOR {
        lemma_body_spans_wf(p, i + 1, i + 1);
        let rest = body_spans(p, i + 1, i + 1);
        if !is_skipped_segment(p, start, i) {
            lemma_cons_span_wf((start, i), rest, start, p.len() as int);
        }
    } else {
        lemma_body_spans_wf(p, start, i + 1);
    }
}

/// The spans of `p` are ordered, not empty, and lie within `p`.
pub proof fn lemma_spans_wf(p: Seq<u8>)
    ensures
        spans_within(spans(p), 0, p.len() as int),
        spans_sorted(spans(p)),
        spans(p).len() > 0 ==> spans(p)[0].0 == 0,
        spans(p).len() == 0 <==> p.len() == 0,
{
    if lead_len(p) == 1 {
        lemma_body_spans_wf(p, 1, 1);
        lemma_cons_span_wf((0int, 1int), body_spans(p, 1, 1), 0, p.len() as int);
    } else {
        lemma_body_spans_wf(p, 0, 0);
        if p.len() > 0 {
            lemma_first_segment_kept(p);
        }
    }
}

/// Without a leading root or `.`, a non-empty path has a first component
/// that starts at byte 0.
proof fn lemma_first_segment_kept(p: Seq<u8>)
    requires
        p.len() > 0,
        lead_len(p) == 0,
    ensures
        body_spans(p, 0, 0).len() > 0,
        body_spans(p, 0, 0)[0].0 == 0,
{
    lemma_scan_keeps_nonempty_segment(p, 0, 1);
    assert(body_spans(p, 0, 0) == body_spans(p, 0, 1));
}

/// Scanning a segment that already holds a byte other than a lone `.`
/// yields that segment first.
proof fn lemma_scan_keeps_nonempty_segment(p: Seq<u8>, start: int, i: int)
    requires
        0 <= start < i <= p.len(),
        forall|k: int| start <= k < i ==> p[k] != SEPARATOR,
        !(i - start == 1 && p[start] == DOT) || (i < p.len() && p[i] != SEPARATOR),
    ensures
        body_spans(p, start, i).len() > 0,
        body_spans(p, start, i)[0].0 == start,
    decreases p.len() - i,
{
    if i >= p.len() {
    } else if p[i] == SEPARATOR {
    } else {
        lemma_scan_keeps_nonempty_segment(p, start, i + 1);
    }
}

/// `p` begins with the components of `base`, compared one by one.
pub open spec fn path_starts_with(p: Seq<u8>, base: Seq<u8>) -> bool {
    components(base).len() <= components(p).len() && forall|t: int|
        0 <= t < components(base).len() ==> #[trigger] components(p)[t] == components(base)[t]
}

/// The bytes of `p` from the start of its component `k` to the end of its
/// last component; empty when `p` has no component `k`.
pub open spec fn tail_from(p: Seq<u8>, k: int) -> Seq<u8> {
    let sp = spans(p);
    if 0 <= k < sp.len() {
        p.subrange(sp[k].0, sp[sp.len() - 1].1)
    } else {
        seq![]
    }
}

/// What is left of `p` once the components of `base` are taken off its
/// front, or `None` when `p` does not begin with them.
pub open spec fn path_strip_prefix(p: Seq<u8>, base: Seq<u8>) -> Option<Seq<u8>> {
    if path_starts_with(p, base) {
        Some(tail_from(p, components(base).len() as int))
    } else {
        None
    }
}

/// `tail` appended to `base`: an absolute `tail` replaces `base`; otherwise a
/// separator is put between them unless `base` is empty or already ends in one.
pub open spec fn path_join(base: Seq<u8>, tail: Seq<u8>) -> Seq<u8> {
    if has_root(tail) {
        tail
    } else if base.len() > 0 && base.last() != SEPARATOR {
        base + seq![SEPARATOR] + tail
    } else {
        base + tail
    }
}

/// `p` without its last component: `None` for the empty path and for the
/// root alone; the bytes up to the end of the component before the last.
pub open spec fn path_parent(p: Seq<u8>) -> Option<Seq<u8>> {
    let sp = spans(p);
    if sp.len() == 0 || (sp.len() == 1 && has_root(p)) {
        None
    } else if sp.len() == 1 {
        Some(seq![])
    } else {
        Some(p.subrange(0, sp[sp.len() - 2].1))
    }
}

/// A path, held as its bytes.
#[derive(Debug, Clone)]
pub struct PathBuf {
    bytes: Vec<u8>,
}

impl View for PathBuf {
    type V = Seq<u8>;

    closed spec fn view(&self) -> Seq<u8> {
        self.bytes@
    }
}

fn lead_len_of(p: &[u8]) -> (r: usize)
    ensures
        r == lead_len(p@),
{
    let n = p.len();
    if n > 0 && p[0] == SEPARATOR {
        1
    } else if n > 0 && p[0] == DOT && (n == 1 || p[1] == SEPARATOR) {
        1
    } else {
        0
    }
}

fn is_skipped(p: &[u8], s: usize, e: usize) -> (r: bool)
    requires
        s <= e <= p@.len(),
    ensures
        r == is_skipped_segment(p@, s as int, e as int),
{
    e - s == 0 || (e - s == 1 && p[s] == DOT)
}

/// The byte spans of the components of `p`.
pub fn component_spans(p: &[u8]) -> (r: Vec<(usize, usize)>)
    ensures
        spans_view(r@) == spans(p@),
{
    let n = p.len();
    let lead = lead_len_of(p);
    let mut r: Vec<(usize, usize)> = Vec::new();
    if lead == 1 {
        r.push((0, 1));
    }
    let mut start: usize = lead;
    let mut i: usize = lead;
    assert(spans_view(r@) + body_spans(p@, start as int, i as int) =~= spans(p@));
    while i < n
        invariant
            n == p@.len(),
            lead == lead_len(p@),
            lead <= start <= i <= n,
            spans_view(r@) + body_spans(p@, start as int, i as int) == spans(p@),
        decreases n - i,
    {
        if p[i] == SEPARATOR {
            let ghost before = r@;
            let ghost rest = body_spans(p@, i + 1, i + 1);
            if !is_skipped(p, start, i) {
                r.push((start, i));
                assert(spans_view(r@) =~= spans_view(before) + seq![(start as int, i as int)]);
                assert(spans_view(r@) + rest =~= spans_view(before) + (seq![
                    (start as int, i as int),
                ] + rest));
            }
            start = i + 1;
        }
        i = i + 1;
    }
    let ghost before = r@;
    if !is_skipped(p, start, n) {
        r.push((start, n));
        assert(spans_view(r@) =~= spans_view(before) + seq![(start as int, n as int)]);
    } else {
        assert(spans_view(r@) =~= spans_view(before) + seq![]);
    }
    r
}

/// The bytes `p[s..e]`.
pub(crate) fn sub_bytes(p: &[u8], s: usize, e: usize) -> (r: Vec<u8>)
    requires
        s <= e <= p@.len(),
    ensures
        r@ == p@.subrange(s as int, e as int),
{
    slice_to_vec(slice_subrange(p, s, e))
}

/// Whether `p[ps..pe]` and `q[qs..qe]` hold the same bytes.
pub(crate) fn segments_equal(p: &[u8], ps: usize, pe: usize, q: &[u8], qs: usize, qe: usize) -> (r: bool)
    requires
        ps <= pe <= p@.len(),
        qs <= qe <= q@.len(),
    ensures
        r == (p@.subrange(ps as int, pe as int) == q@.subrange(qs as int, qe as int)),
{
    if pe - ps != qe - qs {
        assert(p@.subrange(ps as int, pe as int).len() != q@.subrange(qs as int, qe as int).len());
        return false;
    }
    let len = pe - ps;
    let ghost a = p@.subrange(ps as int, pe as int);
    let ghost b = q@.subrange(qs as int, qe as int);
    let mut k: usize = 0;
    while k < len
        invariant
            len == pe - ps,
            len == qe - qs,
            ps <= pe <= p@.len(),
            qs <= qe <= q@.len(),
            k <= len,
            a == p@.subrange(ps as int, pe as int),
            b == q@.subrange(qs as int, qe as int),
            forall|t: int| 0 <= t < k ==> #[trigger] a[t] == b[t],
        decreases len - k,
    {
        if p[ps + k] != q[qs + k] {
            assert(a[k as int] != b[k as int]);
            return false;
        }
        assert(a[k as int] == b[k as int]);
        k = k + 1;
    }
    assert(a =~= b);
    true
}

/// Component `j` of `p`, read from its computed spans, is `components(p)[j]`.
proof fn lemma_component_at(p: Seq<u8>, sp: Seq<(usize, usize)>, j: int)
    requires
        spans_view(sp) == spans(p),
        0 <= j < sp.len(),
    ensures
        components(p)[j] == p.subrange(sp[j].0 as int, sp[j].1 as int),
        components(p).len() == sp.len(),
        0 <= sp[j].0 < sp[j].1 <= p.len(),
{
    lemma_spans_wf(p);
    assert(spans(p)[j] == (sp[j].0 as int, sp[j].1 as int));
}

/// Spans computed for `p` are ordered, not empty, and lie within `p`.
pub proof fn lemma_exec_spans_wf(p: Seq<u8>, sp: Seq<(usize, usize)>)
    requires
        spans_view(sp) == spans(p),
    ensures
        sp.len() == spans(p).len(),
        sp.len() == components(p).len(),
        forall|t: int| 0 <= t < sp.len() ==> #[trigger] sp[t].0 < sp[t].1 <= p.len(),
        forall|t: int|
            0 <= t < sp.len() ==> #[trigger] components(p)[t] == p.subrange(
                sp[t].0 as int,
                sp[t].1 as int,
            ),
{
    lemma_spans_wf(p);
    assert forall|t: int| 0 <= t < sp.len() implies #[trigger] sp[t].0 < sp[t].1 <= p.len() by {
        assert(spans(p)[t] == (sp[t].0 as int, sp[t].1 as int));
    }
    assert forall|t: int| 0 <= t < sp.len() implies #[trigger] components(p)[t] == p.subrange(
        sp[t].0 as int,
        sp[t].1 as int,
    ) by {
        assert(spans(p)[t] == (sp[t].0 as int, sp[t].1 as int));
    }
}

/// The bytes of `p` from component `k` to the end of the last component.
pub(crate) fn tail_bytes(p: &[u8], sp: &Vec<(usize, usize)>, k: usize) -> (r: Vec<u8>)
    requires
        spans_view(sp@) == spans(p@),
    ensures
        r@ == tail_from(p@, k as int),
{
    proof {
        lemma_spans_wf(p@);
    }
    let n = sp.len();
    if k < n {
        assert(spans(p@)[k as int] == (sp@[k as int].0 as int, sp@[k as int].1 as int));
        assert(spans(p@)[n - 1] == (sp@[n - 1].0 as int, sp@[n - 1].1 as int));
        if k < n - 1 {
            assert(spans(p@)[k as int].1 <= spans(p@)[n - 1].0);
        }
        sub_bytes(p, sp[k].0, sp[n - 1].1)
    } else {
        Vec::new()
    }
}

impl PathBuf {
    /// The empty path.
    pub fn new() -> (r: PathBuf)
        ensures
            r@ == Seq::<u8>::empty(),
    {
        PathBuf { bytes: Vec::new() }
    }

    /// The path written with these bytes.
    pub fn from_bytes(bytes: Vec<u8>) -> (r: PathBuf)
        ensures
            r@ == bytes@,
    {
        PathBuf { bytes }
    }

    /// The path written with the UTF-8 bytes of `s`.
    pub fn from_str(s: &str) -> (r: PathBuf)
        ensures
            r@ == s.spec_bytes(),
    {
        PathBuf { bytes: slice_to_vec(s.as_bytes()) }
    }

    /// The bytes of the path.
    pub fn as_bytes(&self) -> (r: &[u8])
        ensures
            r@ == self@,
    {
        self.bytes.as_slice()
    }

    /// The bytes of the path, taken out of it.
    pub fn into_bytes(self) -> (r: Vec<u8>)
        ensures
            r@ == self@,
    {
        self.bytes
    }

    /// A copy of the path.
    pub fn to_path_buf(&self) -> (r: PathBuf)
        ensures
            r@ == self@,
    {
        PathBuf { bytes: slice_to_vec(self.bytes.as_slice()) }
    }

    /// Whether the path starts at the root.
    pub fn is_absolute(&self) -> (r: bool)
        ensures
            r == has_root(self@),
    {
        self.bytes.len() > 0 && self.bytes[0] == SEPARATOR
    }

    /// Whether the path does not start at the root.
    pub fn is_relative(&self) -> (r: bool)
        ensures
            r == !has_root(self@),
    {
        !self.is_absolute()
    }

    /// The components of the path, each as the bytes it is written with.
    pub fn components(&self) -> (r: Vec<Vec<u8>>)
        ensures
            r@.len() == components(self@).len(),
            forall|j: int| 0 <= j < r@.len() ==> #[trigger] r@[j]@ == components(self@)[j],
    {
        let p = self.bytes.as_slice();
        let sp = component_spans(p);
        let mut r: Vec<Vec<u8>> = Vec::new();
        let mut j: usize = 0;
        while j < sp.len()
            invariant
                spans_view(sp@) == spans(p@),
                p@ == self@,
                j <= sp@.len(),
                r@.len() == j,
                forall|t: int| 0 <= t < j ==> #[trigger] r@[t]@ == components(self@)[t],
            decreases sp@.len() - j,
        {
            proof {
                lemma_component_at(p@, sp@, j as int);
            }
            r.push(sub_bytes(p, sp[j].0, sp[j].1));
            j = j + 1;
        }
        proof {
            lemma_spans_wf(p@);
        }
        r
    }

    /// Whether the path begins with the components of `base`.
    pub fn starts_with(&self, base: &PathBuf) -> (r: bool)
        ensures
            r == path_starts_with(self@, base@),
    {
        let p = self.bytes.as_slice();
        let b = base.bytes.as_slice();
        let sp = component_spans(p);
        let sb = component_spans(b);
        proof {
            lemma_spans_wf(p@);
            lemma_spans_wf(b@);
        }
        if sb.len() > sp.len() {
            return false;
        }
        let mut j: usize = 0;
        while j < sb.len()
            invariant
                spans_view(sp@) == spans(p@),
                spans_view(sb@) == spans(b@),
                p@ == self@,
                b@ == base@,
                sb@.len() <= sp@.len(),
                j <= sb@.len(),
                forall|t: int| 0 <= t < j ==> #[trigger] components(p@)[t] == components(b@)[t],
            decreases sb@.len() - j,
        {
            proof {
                lemma_component_at(p@, sp@, j as int);
                lemma_component_at(b@, sb@, j as int);
            }
            if !segments_equal(p, sp[j].0, sp[j].1, b, sb[j].0, sb[j].1) {
                return false;
            }
            j = j + 1;
        }
        true
    }

    /// The path with the components of `base` taken off its front.
    pub fn strip_prefix(&self, base: &PathBuf) -> (r: Option<PathBuf>)
        ensures
            r matches Some(t) ==> path_strip_prefix(self@, base@) == Some(t@),
            r is None ==> path_strip_prefix(self@, base@) is None,
            r matches Some(t) ==> components(t@) == components(self@).skip(
                components(base@).len() as int,
            ),
    {
        if self.starts_with(base) {
            let p = self.bytes.as_slice();
            let sp = component_spans(p);
            let sb = component_spans(base.bytes.as_slice());
            proof {
                lemma_spans_wf(self@);
                lemma_spans_wf(base@);
                lemma_components_tail_from(self@, components(base@).len() as int);
            }
            Some(PathBuf { bytes: tail_bytes(p, &sp, sb.len()) })
        } else {
            None
        }
    }

    /// `tail` appended to the path.
    pub fn join(&self, tail: &PathBuf) -> (r: PathBuf)
        ensures
            r@ == path_join(self@, tail@),
            self@.len() > 0 && !has_root(tail@) && !has_leading_cur_dir(tail@) ==> components(r@)
                == components(self@) + components(tail@),
    {
        proof {
            if self@.len() > 0 && !has_root(tail@) && !has_leading_cur_dir(tail@) {
                lemma_components_join(self@, tail@);
            }
        }
        let t = tail.bytes.as_slice();
        if t.len() > 0 && t[0] == SEPARATOR {
            return tail.to_path_buf();
        }
        let mut v = slice_to_vec(self.bytes.as_slice());
        if v.len() > 0 && v[v.len() - 1] != SEPARATOR {
            v.push(SEPARATOR);
        }
        let mut rest = slice_to_vec(t);
        v.append(&mut rest);
        PathBuf { bytes: v }
    }

    /// Appends `tail` to the path in place.
    pub fn push(&mut self, tail: &PathBuf)
        ensures
            final(self)@ == path_join(old(self)@, tail@),
            old(self)@.len() > 0 && !has_root(tail@) && !has_leading_cur_dir(tail@) ==> components(
                final(self)@,
            ) == components(old(self)@) + components(tail@),
    {
        let joined = self.join(tail);
        *self = joined;
    }

    /// The path without its last component.
    pub fn parent(&self) -> (r: Option<PathBuf>)
        ensures
            r matches Some(q) ==> path_parent(self@) == Some(q@),
            r is None ==> path_parent(self@) is None,
            r matches Some(q) ==> components(q@) == components(self@).drop_last(),
    {
        proof {
            if path_parent(self@) is Some {
                lemma_components_parent(self@);
            }
        }
        let p = self.bytes.as_slice();
        let sp = component_spans(p);
        proof {
            lemma_spans_wf(p@);
        }
        let n = sp.len();
        if n == 0 || (n == 1 && self.is_absolute()) {
            None
        } else if n == 1 {
            Some(PathBuf::new())
        } else {
            assert(spans(p@)[n - 2] == (sp@[n - 2].0 as int, sp@[n - 2].1 as int));
            Some(PathBuf { bytes: sub_bytes(p, 0, sp[n - 2].1) })
        }
    }

    /// Drops the last component of the path; `false`, and the path left as
    /// it is, when it has no parent.
    pub fn pop(&mut self) -> (r: bool)
        ensures
            r == path_parent(old(self)@) is Some,
            r ==> components(final(self)@) == components(old(self)@).drop_last(),
            r ==> path_parent(old(self)@) == Some(final(self)@),
            !r ==> final(self)@ == old(self)@,
    {
        match self.parent() {
            Some(q) => {
                *self = q;
                true
            },
            None => false,
        }
    }
}

impl PathBuf {
    /// Whether the two paths have the same components.
    pub fn same_components(&self, other: &PathBuf) -> (r: bool)
        ensures
            r == (components(self@) == components(other@)),
    {
        let p = self.bytes.as_slice();
        let q = other.bytes.as_slice();
        let sp = component_spans(p);
        let sq = component_spans(q);
        proof {
            lemma_exec_spans_wf(p@, sp@);
            lemma_exec_spans_wf(q@, sq@);
        }
        if sp.len() != sq.len() {
            return false;
        }
        let mut j: usize = 0;
        while j < sp.len()
            invariant
                p@ == self@,
                q@ == other@,
                spans_view(sp@) == spans(p@),
                spans_view(sq@) == spans(q@),
                sp@.len() == sq@.len(),
                sp@.len() == components(p@).len(),
                sq@.len() == components(q@).len(),
                forall|t: int| 0 <= t < sp@.len() ==> #[trigger] sp@[t].0 < sp@[t].1 <= p@.len(),
                forall|t: int| 0 <= t < sq@.len() ==> #[trigger] sq@[t].0 < sq@[t].1 <= q@.len(),
                forall|t: int|
                    0 <= t < sp@.len() ==> #[trigger] components(p@)[t] == p@.subrange(
                        sp@[t].0 as int,
                        sp@[t].1 as int,
                    ),
                forall|t: int|
                    0 <= t < sq@.len() ==> #[trigger] components(q@)[t] == q@.subrange(
                        sq@[t].0 as int,
                        sq@[t].1 as int,
                    ),
                j <= sp@.len(),
                forall|t: int| 0 <= t < j ==> #[trigger] components(p@)[t] == components(q@)[t],
            decreases sp@.len() - j,
        {
            if !segments_equal(p, sp[j].0, sp[j].1, q, sq[j].0, sq[j].1) {
                assert(components(p@)[j as int] != components(q@)[j as int]);
                return false;
            }
            j = j + 1;
        }
        assert(components(p@) =~= components(q@));
        true
    }
}

impl PartialEq for PathBuf {
    fn eq(&self, other: &PathBuf) -> (r: bool) {
        self.same_components(other)
    }
}

impl PartialEqSpecImpl for PathBuf {
    open spec fn obeys_eq_spec() -> bool {
        true
    }

    open spec fn eq_spec(&self, other: &PathBuf) -> bool {
        components(self@) == components(other@)
    }
}

} // verus!
