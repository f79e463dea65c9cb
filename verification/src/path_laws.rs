//! How components behave under the operations on paths: a suffix taken at
//! a component boundary has the remaining components, a parent has all but
//! the last, and joining a relative path appends its components.

use vstd::prelude::*;

use crate::path_buf::{
    body_spans, components, has_leading_cur_dir, has_root, is_skipped_segment, lead_len,
    lemma_body_spans_wf, lemma_spans_wf, path_join, path_parent, spans, spans_within, tail_from,
    DOT, SEPARATOR,
};

verus! {

/// Spans moved `a` bytes to the right.
pub open spec fn shift(s: Seq<(int, int)>, a: int) -> Seq<(int, int)> {
    Seq::new(s.len(), |j: int| (s[j].0 + a, s[j].1 + a))
}

/// The bytes of `p` under each span.
pub open spec fn texts(p: Seq<u8>, s: Seq<(int, int)>) -> Seq<Seq<u8>> {
    Seq::new(s.len(), |j: int| p.subrange(s[j].0, s[j].1))
}

/// What the scan from `start` knows of each span it yields: no separator
/// inside, a separator (or the end) right after, a separator (or `start`)
/// right before, and not a skipped segment.
pub open spec fn scan_props(p: Seq<u8>, start: int, s: Seq<(int, int)>) -> bool {
    &&& forall|j: int, t: int|
        #![trigger s[j], p[t]]
        0 <= j < s.len() && s[j].0 <= t < s[j].1 ==> p[t] != SEPARATOR
    &&& forall|j: int|
        0 <= j < s.len() ==> (#[trigger] s[j]).1 == p.len() || p[s[j].1] == SEPARATOR
    &&& forall|j: int|
        0 <= j < s.len() ==> (#[trigger] s[j]).0 == start || (s[j].0 >= 1 && p[s[j].0 - 1]
            == SEPARATOR)
    &&& forall|j: int| 0 <= j < s.len() ==> !is_skipped_segment(p, (#[trigger] s[j]).0, s[j].1)
}

proof fn lemma_scan_props_cons(p: Seq<u8>, start: int, x: (int, int), rest: Seq<(int, int)>)
    requires
        0 <= x.0 <= x.1 <= p.len(),
        forall|t: int| x.0 <= t < x.1 ==> p[t] != SEPARATOR,
        x.1 == p.len() || p[x.1] == SEPARATOR,
        x.0 == start,
        !is_skipped_segment(p, x.0, x.1),
        scan_props(p, x.1 + 1, rest),
        spans_within(rest, x.1 + 1, p.len() as int),
    ensures
        scan_props(p, start, seq![x] + rest),
{
    let all = seq![x] + rest;
    assert forall|j: int, t: int|
        #![trigger all[j], p[t]]
        0 <= j < all.len() && all[j].0 <= t < all[j].1 implies p[t] != SEPARATOR by {
        if j > 0 {
            assert(all[j] == rest[j - 1]);
        }
    }
    assert forall|j: int| 0 <= j < all.len() implies (#[trigger] all[j]).1 == p.len() || p[all[j].1]
        == SEPARATOR by {
        if j > 0 {
            assert(all[j] == rest[j - 1]);
        }
    }
    assert forall|j: int| 0 <= j < all.len() implies (#[trigger] all[j]).0 == start || (all[j].0 >= 1
        && p[all[j].0 - 1] == SEPARATOR) by {
        if j > 0 {
            assert(all[j] == rest[j - 1]);
            assert(rest[j - 1].0 < rest[j - 1].1 <= p.len());
        }
    }
    assert forall|j: int| 0 <= j < all.len() implies !is_skipped_segment(
        p,
        (#[trigger] all[j]).0,
        all[j].1,
    ) by {
        if j > 0 {
            assert(all[j] == rest[j - 1]);
        }
    }
}

/// The spans a scan yields have the properties of `scan_props`.
pub proof fn lemma_scan_props(p: Seq<u8>, start: int, i: int)
    requires
        0 <= start <= i <= p.len(),
        forall|t: int| start <= t < i ==> p[t] != SEPARATOR,
    ensures
        scan_props(p, start, body_spans(p, start, i)),
        spans_within(body_spans(p, start, i), start, p.len() as int),
    decreases p.len() - i,
{
    crate::path_buf::lemma_body_spans_wf(p, start, i);
    if i >= p.len() {
    } else if p[i] == SEPARATOR {
        lemma_scan_props(p, i + 1, i + 1);
        crate::path_buf::lemma_body_spans_wf(p, i + 1, i + 1);
        let rest = body_spans(p, i + 1, i + 1);
        if !is_skipped_segment(p, start, i) {
            lemma_scan_props_cons(p, start, (start, i), rest);
        } else {
            assert(body_spans(p, start, i) == rest);
            assert forall|j: int| 0 <= j < rest.len() implies (#[trigger] rest[j]).0 == start || (
            rest[j].0 >= 1 && p[rest[j].0 - 1] == SEPARATOR) by {}
        }
    } else {
        lemma_scan_props(p, start, i + 1);
    }
}

/// Scanning is the same seen from a suffix of the bytes.
pub proof fn lemma_scan_suffix(p: Seq<u8>, a: int, start: int, i: int)
    requires
        0 <= a <= start <= i <= p.len(),
    ensures
        body_spans(p, start, i) == shift(body_spans(p.subrange(a, p.len() as int), start - a, i - a), a),
    decreases p.len() - i,
{
    let q = p.subrange(a, p.len() as int);
    if i >= p.len() {
        if start < p.len() {
            assert(q[start - a] == p[start]);
        }
        assert(body_spans(p, start, i) =~= shift(body_spans(q, start - a, i - a), a));
    } else {
        assert(q[i - a] == p[i]);
        if p[i] == SEPARATOR {
            lemma_scan_suffix(p, a, i + 1, i + 1);
            let rp = body_spans(p, i + 1, i + 1);
            let rq = body_spans(q, i + 1 - a, i + 1 - a);
            if start < i {
                assert(q[start - a] == p[start]);
            }
            if !is_skipped_segment(p, start, i) {
                assert(shift(seq![(start - a, i - a)] + rq, a) =~= seq![(start, i)] + shift(rq, a));
            }
        } else {
            lemma_scan_suffix(p, a, start, i + 1);
        }
    }
}

/// Scanning across a separator at `b` is scanning up to `b` and then
/// scanning afresh after it.
pub proof fn lemma_scan_split(p: Seq<u8>, b: int, start: int, i: int)
    requires
        0 <= start <= i <= b < p.len(),
        p[b] == SEPARATOR,
    ensures
        body_spans(p, start, i) == body_spans(p.subrange(0, b), start, i) + body_spans(
            p,
            b + 1,
            b + 1,
        ),
    decreases b - i,
{
    let q = p.subrange(0, b);
    let r = body_spans(p, b + 1, b + 1);
    if start < b {
        assert(q[start] == p[start]);
    }
    if i == b {
        if is_skipped_segment(p, start, b) {
            assert(body_spans(q, start, i) =~= seq![]);
            assert(body_spans(p, start, i) =~= seq![] + r);
        } else {
            assert(body_spans(q, start, i) =~= seq![(start, b)]);
        }
    } else {
        assert(q[i] == p[i]);
        if p[i] == SEPARATOR {
            lemma_scan_split(p, b, i + 1, i + 1);
            let rest_q = body_spans(q, i + 1, i + 1);
            if !is_skipped_segment(p, start, i) {
                assert(seq![(start, i)] + (rest_q + r) =~= (seq![(start, i)] + rest_q) + r);
            }
        } else {
            lemma_scan_split(p, b, start, i + 1);
        }
    }
}

/// Texts of shifted spans are texts of the suffix.
pub proof fn lemma_texts_shift(p: Seq<u8>, a: int, s: Seq<(int, int)>)
    requires
        0 <= a <= p.len(),
        spans_within(s, 0, p.len() - a),
    ensures
        texts(p, shift(s, a)) == texts(p.subrange(a, p.len() as int), s),
{
    let q = p.subrange(a, p.len() as int);
    assert forall|j: int| 0 <= j < s.len() implies #[trigger] texts(p, shift(s, a))[j] == texts(
        q,
        s,
    )[j] by {
        assert(p.subrange(s[j].0 + a, s[j].1 + a) =~= q.subrange(s[j].0, s[j].1));
    }
    assert(texts(p, shift(s, a)) =~= texts(q, s));
}

/// Texts of spans within a prefix are texts of the prefix.
pub proof fn lemma_texts_prefix(p: Seq<u8>, b: int, s: Seq<(int, int)>)
    requires
        0 <= b <= p.len(),
        spans_within(s, 0, b),
    ensures
        texts(p, s) == texts(p.subrange(0, b), s),
{
    let q = p.subrange(0, b);
    assert forall|j: int| 0 <= j < s.len() implies #[trigger] texts(p, s)[j] == texts(q, s)[j] by {
        assert(p.subrange(s[j].0, s[j].1) =~= q.subrange(s[j].0, s[j].1));
    }
    assert(texts(p, s) =~= texts(q, s));
}

/// Texts of concatenated spans.
pub proof fn lemma_texts_concat(p: Seq<u8>, a: Seq<(int, int)>, b: Seq<(int, int)>)
    ensures
        texts(p, a + b) == texts(p, a) + texts(p, b),
{
    assert(texts(p, a + b) =~= texts(p, a) + texts(p, b));
}

/// The components are the texts of the spans.
pub proof fn lemma_components_texts(p: Seq<u8>)
    ensures
        components(p) == texts(p, spans(p)),
{
    assert(components(p) =~= texts(p, spans(p)));
}

/// A separator added at the end leaves the components as they are.
pub proof fn lemma_components_trailing_separator(d: Seq<u8>)
    requires
        d.len() > 0,
    ensures
        components(d + seq![SEPARATOR]) == components(d),
{
    let j = d + seq![SEPARATOR];
    let b = d.len() as int;
    assert(j[0] == d[0]);
    if d.len() > 1 {
        assert(j[1] == d[1]);
    }
    assert(lead_len(j) == lead_len(d));
    let l = lead_len(d);
    lemma_scan_split(j, b, l, l);
    assert(j.subrange(0, b) =~= d);
    assert(body_spans(j, b + 1, b + 1) =~= seq![]);
    assert(body_spans(j, l, l) =~= body_spans(d, l, l));
    assert(spans(j) =~= spans(d));
    lemma_spans_wf(d);
    lemma_texts_prefix(j, b, spans(d));
    lemma_components_texts(j);
    lemma_components_texts(d);
}

/// Bytes that end in a separator, followed by any bytes, have the
/// components of the first part and then those that a scan of the rest
/// from its start yields.
pub proof fn lemma_components_append_any(d: Seq<u8>, t: Seq<u8>)
    requires
        d.len() > 0,
        d.last() == SEPARATOR,
    ensures
        components(d + t) == components(d) + texts(t, body_spans(t, 0, 0)),
{
    let j = d + t;
    let b = d.len() - 1;
    let n = d.len() as int;
    let bt = body_spans(t, 0, 0);
    assert(j[0] == d[0]);
    if d.len() > 1 {
        assert(j[1] == d[1]);
    }
    assert(lead_len(j) == lead_len(d));
    let l = lead_len(d);
    assert(j.subrange(n, j.len() as int) =~= t);
    lemma_scan_suffix(j, n, n, n);
    lemma_body_spans_wf(t, 0, 0);
    lemma_spans_wf(d);
    if l <= b {
        lemma_scan_split(j, b, l, l);
        lemma_scan_split(d, b, l, l);
        assert(j.subrange(0, b) =~= d.subrange(0, b));
        assert(body_spans(d, b + 1, b + 1) =~= seq![]);
        if l == 1 {
            assert(spans(j) =~= spans(d) + shift(bt, n));
        } else {
            assert(spans(j) =~= spans(d) + shift(bt, n));
        }
    } else {
        assert(d =~= seq![SEPARATOR]);
        assert(body_spans(d, 1, 1) =~= seq![]);
        assert(spans(j) =~= spans(d) + shift(bt, n));
    }
    lemma_texts_concat(j, spans(d), shift(bt, n));
    lemma_texts_prefix(j, n, spans(d));
    assert(j.subrange(0, n) =~= d);
    lemma_texts_shift(j, n, bt);
    lemma_components_texts(j);
    lemma_components_texts(d);
}

/// Bytes that end in a separator followed by a path with no leading root
/// or `.` have the components of both, in order.
pub proof fn lemma_components_append(d: Seq<u8>, t: Seq<u8>)
    requires
        d.len() > 0,
        d.last() == SEPARATOR,
        lead_len(t) == 0,
    ensures
        components(d + t) == components(d) + components(t),
{
    lemma_components_append_any(d, t);
    assert(spans(t) == body_spans(t, 0, 0));
    lemma_components_texts(t);
}

/// Joining a path with no leading root or `.` to a non-empty path appends
/// its components.
pub proof fn lemma_components_join(d: Seq<u8>, t: Seq<u8>)
    requires
        d.len() > 0,
        lead_len(t) == 0,
    ensures
        components(path_join(d, t)) == components(d) + components(t),
{
    if d.last() != SEPARATOR {
        let d2 = d + seq![SEPARATOR];
        lemma_components_trailing_separator(d);
        lemma_components_append(d2, t);
    } else {
        lemma_components_append(d, t);
    }
}

/// The spans of `p` are its leading span, if any, then the spans of the
/// scan that follows it.
proof fn lemma_spans_split(p: Seq<u8>)
    ensures
        lead_len(p) == 0 ==> spans(p) == body_spans(p, 0, 0),
        lead_len(p) == 1 ==> spans(p) == seq![(0int, 1int)] + body_spans(p, 1, 1),
        lead_len(p) == 1 ==> p.len() >= 1,
        0 <= lead_len(p) <= 1,
{
}

/// A scan restarted at the start of component `k` (not the first) yields
/// the spans of the components from `k` on.
proof fn lemma_scan_restart(p: Seq<u8>, k: int)
    requires
        1 <= k < spans(p).len(),
    ensures
        body_spans(p, spans(p)[k].0, spans(p)[k].0) == spans(p).skip(k),
{
    let sp = spans(p);
    let l = lead_len(p);
    lemma_spans_split(p);
    lemma_scan_props(p, l, l);
    lemma_body_spans_wf(p, l, l);
    let body = body_spans(p, l, l);
    assert(sp =~= sp.take(l) + body);
    assert(body[k - l] == sp[k]);
    let s = sp[k].0;
    if s == l {
        if k - l > 0 {
            assert(body[0].0 >= l);
            assert(body[0].0 < body[0].1);
            assert(body[0].1 <= body[k - l].0);
            assert(false);
        }
        assert(body_spans(p, s, s) =~= sp.skip(k));
    } else {
        let b = s - 1;
        assert(p[b] == SEPARATOR);
        lemma_scan_split(p, b, l, l);
        let a = body_spans(p.subrange(0, b), l, l);
        let y = body_spans(p, s, s);
        lemma_body_spans_wf(p.subrange(0, b), l, l);
        lemma_body_spans_wf(p, s, s);
        assert(body =~= a + y);
        if a.len() > k - l {
            assert(body[k - l] == a[k - l]);
            assert(false);
        }
        if a.len() < k - l {
            assert(body[a.len() as int] == y[0]);
            assert(body[a.len() as int].1 <= body[k - l].0);
            assert(false);
        }
        assert(y =~= sp.skip(k));
    }
}

/// The scan of the bytes of `p` from component `k` on, and how its spans
/// sit in `p`.
proof fn lemma_tail_spans(p: Seq<u8>, k: int) -> (bq: Seq<(int, int)>)
    requires
        1 <= k < spans(p).len(),
    ensures
        bq == body_spans(tail_from(p, k), 0, 0),
        texts(tail_from(p, k), bq) == texts(p, spans(p).skip(k)),
{
    let sp = spans(p);
    let n = sp.len() as int;
    lemma_spans_wf(p);
    let s = sp[k].0;
    let e = sp[n - 1].1;
    if k < n - 1 {
        assert(sp[k].1 <= sp[n - 1].0);
    }
    lemma_scan_restart(p, k);
    let q = p.subrange(s, p.len() as int);
    lemma_scan_suffix(p, s, s, s);
    let bq = body_spans(q, 0, 0);
    lemma_body_spans_wf(q, 0, 0);
    assert(shift(bq, s) == sp.skip(k));
    assert(bq.len() == n - k);
    assert(shift(bq, s)[n - k - 1] == sp[n - 1]);
    let f = e - s;
    let tail = tail_from(p, k);
    assert(tail =~= q.subrange(0, f));
    lemma_span_end(p, n - 1);
    lemma_tail_scan(p, q, s, e, bq);
    assert forall|j: int| 0 <= j < bq.len() implies 0 <= #[trigger] bq[j].0 < bq[j].1 <= f by {
        if j < bq.len() - 1 {
            assert(bq[j].1 <= bq[bq.len() - 1].0);
        }
    }
    lemma_texts_shift(p, s, bq);
    lemma_texts_prefix(q, f, bq);
    bq
}

/// A component ends at the end of the bytes or at a separator, unless it
/// is a leading root.
proof fn lemma_span_end(p: Seq<u8>, j: int)
    requires
        0 <= j < spans(p).len(),
        !(j == 0 && has_root(p)),
    ensures
        spans(p)[j].1 == p.len() || p[spans(p)[j].1] == SEPARATOR,
{
    let l = lead_len(p);
    lemma_spans_split(p);
    lemma_scan_props(p, l, l);
    let body = body_spans(p, l, l);
    assert(spans(p) =~= spans(p).take(l) + body);
    if j >= l {
        assert(body[j - l] == spans(p)[j]);
    } else {
        assert(has_leading_cur_dir(p));
    }
}

/// Component `k` (not the first) of `p` starts with a byte that is neither
/// a separator nor a lone `.`.
proof fn lemma_tail_lead(p: Seq<u8>, k: int)
    requires
        1 <= k < spans(p).len(),
    ensures
        lead_len(tail_from(p, k)) == 0,
        tail_from(p, k).len() > 0,
{
    let sp = spans(p);
    let n = sp.len() as int;
    let l = lead_len(p);
    lemma_spans_split(p);
    lemma_spans_wf(p);
    lemma_scan_props(p, l, l);
    let body = body_spans(p, l, l);
    assert(sp =~= sp.take(l) + body);
    assert(body[k - l] == sp[k]);
    let s = sp[k].0;
    let e = sp[n - 1].1;
    if k < n - 1 {
        assert(sp[k].1 <= sp[n - 1].0);
    }
    let tail = tail_from(p, k);
    assert(sp[k].0 < sp[k].1 <= e);
    assert(tail[0] == p[s]);
    assert(p[s] != SEPARATOR);
    if p[s] == DOT {
        assert(!is_skipped_segment(p, sp[k].0, sp[k].1));
        assert(p[s + 1] != SEPARATOR);
        assert(tail[1] == p[s + 1]);
    }
}

/// The bytes of `p` from its component `k` (not the first) on have the
/// components of `p` from `k` on, and no leading root or `.`.
pub proof fn lemma_components_tail(p: Seq<u8>, k: int)
    requires
        1 <= k < spans(p).len(),
    ensures
        components(tail_from(p, k)) == components(p).skip(k),
        lead_len(tail_from(p, k)) == 0,
        tail_from(p, k).len() > 0,
{
    let tail = tail_from(p, k);
    lemma_tail_lead(p, k);
    let bq = lemma_tail_spans(p, k);
    lemma_spans_split(tail);
    lemma_components_texts(p);
    lemma_components_texts(tail);
    assert(texts(p, spans(p)).skip(k) =~= texts(p, spans(p).skip(k)));
}

/// The scan of `q`, the bytes from `s` on, is the scan of its part up to
/// `e`, the end of its last span.
proof fn lemma_tail_scan(p: Seq<u8>, q: Seq<u8>, s: int, e: int, bq: Seq<(int, int)>)
    requires
        0 <= s < e <= p.len(),
        q == p.subrange(s, p.len() as int),
        bq == body_spans(q, 0, 0),
        bq.len() > 0,
        bq[bq.len() - 1].1 == e - s,
        e == p.len() || p[e] == SEPARATOR,
    ensures
        bq == body_spans(q.subrange(0, e - s), 0, 0),
{
    let f = e - s;
    lemma_body_spans_wf(q, 0, 0);
    if e < p.len() {
        assert(q[f] == p[e]);
        lemma_scan_split(q, f, 0, 0);
        let c = body_spans(q.subrange(0, f), 0, 0);
        let d = body_spans(q, f + 1, f + 1);
        lemma_body_spans_wf(q, f + 1, f + 1);
        assert(bq =~= c + d);
        if d.len() > 0 {
            assert(bq[bq.len() - 1] == d[d.len() - 1]);
            assert(false);
        }
        assert(bq =~= c);
    } else {
        assert(q.subrange(0, f) =~= q);
    }
}

/// The bytes of `p` up to the end of its component `k - 1` have the first
/// `k` components of `p`.
pub proof fn lemma_components_prefix(p: Seq<u8>, k: int)
    requires
        1 <= k <= spans(p).len(),
    ensures
        components(p.subrange(0, spans(p)[k - 1].1)) == components(p).take(k),
{
    let sp = spans(p);
    let n = sp.len() as int;
    let l = lead_len(p);
    let b = sp[k - 1].1;
    lemma_spans_split(p);
    lemma_spans_wf(p);
    lemma_scan_props(p, l, l);
    let body = body_spans(p, l, l);
    assert(sp =~= sp.take(l) + body);
    let q = p.subrange(0, b);
    lemma_components_texts(p);
    lemma_components_texts(q);
    if b == p.len() {
        if k < n {
            assert(sp[k - 1].1 <= sp[k].0);
            assert(false);
        }
        assert(q =~= p);
        assert(sp.take(k) =~= sp);
        assert(texts(p, sp).take(k) =~= texts(p, sp.take(k)));
    } else if p[b] == SEPARATOR {
        assert(b >= 1);
        lemma_scan_split(p, b, l, l);
        let a = body_spans(q, l, l);
        let y = body_spans(p, b + 1, b + 1);
        lemma_body_spans_wf(q, l, l);
        lemma_body_spans_wf(p, b + 1, b + 1);
        assert(body =~= a + y);
        assert(q[0] == p[0]);
        if b >= 2 {
            assert(q[1] == p[1]);
        }
        assert(lead_len(q) == l);
        lemma_spans_split(q);
        assert(spans(q) =~= sp.take(l) + a);
        let m = l + a.len();
        if m < k {
            assert(sp[k - 1] == y[k - 1 - m]);
            assert(false);
        }
        if m > k {
            assert(sp[k] == a[k - l]);
            assert(sp[k - 1].1 <= sp[k].0);
            assert(false);
        }
        assert(spans(q) =~= sp.take(k));
        assert forall|j: int| 0 <= j < k implies 0 <= #[trigger] sp.take(k)[j].0 < sp.take(k)[j].1
            <= b by {
            if j < k - 1 {
                assert(sp[j].1 <= sp[k - 1].0);
            }
        }
        lemma_texts_prefix(p, b, sp.take(k));
        assert(texts(p, sp).take(k) =~= texts(p, sp.take(k)));
    } else {
        // only a leading root can end without a separator after it
        if k - 1 >= l {
            assert(body[k - 1 - l] == sp[k - 1]);
            assert(false);
        }
        assert(k == 1 && l == 1);
        assert(has_root(p));
        assert(q =~= seq![SEPARATOR]);
        assert(body_spans(q, 1, 1) =~= seq![]);
        assert(spans(q) =~= sp.take(1));
        lemma_texts_prefix(p, 1, sp.take(1));
        assert(texts(p, sp).take(1) =~= texts(p, sp.take(1)));
    }
}

/// A parent has all the components of its child but the last.
pub proof fn lemma_components_parent(p: Seq<u8>)
    requires
        path_parent(p) is Some,
    ensures
        components(path_parent(p).unwrap()) == components(p).drop_last(),
        components(p).len() >= 1,
{
    let n = spans(p).len() as int;
    lemma_spans_wf(p);
    if n >= 2 {
        lemma_components_prefix(p, n - 1);
        assert(components(p).take(n - 1) =~= components(p).drop_last());
    } else {
        assert(body_spans(seq![], 0, 0) =~= seq![]);
        assert(components(seq![]) =~= components(p).drop_last());
    }
}

/// What is left of a path from its component `k` on has the components of
/// the path from `k` on.
pub proof fn lemma_components_tail_from(p: Seq<u8>, k: int)
    requires
        0 <= k <= spans(p).len(),
    ensures
        components(tail_from(p, k)) == components(p).skip(k),
{
    let n = spans(p).len() as int;
    lemma_spans_wf(p);
    if k == n {
        assert(tail_from(p, k) =~= seq![]);
        assert(body_spans(seq![], 0, 0) =~= seq![]);
        assert(components(tail_from(p, k)) =~= components(p).skip(k));
    } else if k == 0 {
        lemma_components_prefix(p, n);
        assert(tail_from(p, 0) =~= p.subrange(0, spans(p)[n - 1].1));
        assert(components(p).take(n) =~= components(p));
        assert(components(p).skip(0) =~= components(p));
    } else {
        lemma_components_tail(p, k);
    }
}

} // verus!
