use vstd::prelude::*;

use crate::version::{key_eq, key_le, key_lt, opt_rank, PEP440Version};

verus! {

// A range is a set of versions, held as a sorted list of disjoint intervals.
// Interval bounds live in a doubled order: each bound is a version together
// with a side, so that inclusive and exclusive bounds of either kind compare
// correctly.  A bound position `(v, e)` sorts by the version's precedence
// key first and by `e` second; a version itself sits at `(v, 0)`.
/// Position offset of a lower bound: an inclusive bound sits at its version,
/// an exclusive one just above it.
pub open spec fn lo_eps(inclusive: bool) -> int {
    if inclusive {
        0
    } else {
        1
    }
}

/// Position offset of an upper bound: an exclusive bound cuts at its
/// version, an inclusive one just above it.
pub open spec fn hi_eps(inclusive: bool) -> int {
    if inclusive {
        1
    } else {
        0
    }
}

pub open spec fn pos_lt(a: PEP440Version, ae: int, b: PEP440Version, be: int) -> bool {
    key_lt(a, b) || (key_eq(a, b) && ae < be)
}

pub open spec fn pos_le(a: PEP440Version, ae: int, b: PEP440Version, be: int) -> bool {
    key_lt(a, b) || (key_eq(a, b) && ae <= be)
}

/// One contiguous interval of versions: a lower bound and an optional upper
/// bound, each inclusive or exclusive; `hi == None` means unbounded above.
#[derive(Debug, Clone, Copy, PartialEq, Eq)]
pub struct Segment {
    pub lo: PEP440Version,
    pub lo_inclusive: bool,
    pub hi: Option<(PEP440Version, bool)>,
}

pub open spec fn seg_contains(s: Segment, v: PEP440Version) -> bool {
    pos_le(s.lo, lo_eps(s.lo_inclusive), v, 0) && match s.hi {
        None => true,
        Some((h, hinc)) => pos_lt(v, 0, h, hi_eps(hinc)),
    }
}

/// A segment is well formed when its bounds leave room between them.
pub open spec fn seg_wf(s: Segment) -> bool {
    match s.hi {
        None => true,
        Some((h, hinc)) => pos_lt(s.lo, lo_eps(s.lo_inclusive), h, hi_eps(hinc)),
    }
}

/// Segment `a` closes strictly below where segment `b` opens.
pub open spec fn seg_gap(a: Segment, b: Segment) -> bool {
    match a.hi {
        None => false,
        Some((h, hinc)) => pos_lt(h, hi_eps(hinc), b.lo, lo_eps(b.lo_inclusive)),
    }
}

/// A segment that holds at least one version.
pub open spec fn seg_has_version(s: Segment) -> bool {
    exists|v: PEP440Version| seg_contains(s, v)
}

pub open spec fn seg_set_contains(ss: Seq<Segment>, v: PEP440Version) -> bool {
    exists|i: int| 0 <= i < ss.len() && seg_contains(ss[i], v)
}

/// Membership in the first `k` segments only.
pub open spec fn seg_prefix_contains(ss: Seq<Segment>, k: int, v: PEP440Version) -> bool {
    exists|i: int| 0 <= i < k && i < ss.len() && seg_contains(ss[i], v)
}

/// A well-formed chain: every segment well formed, consecutive segments
/// separated, and so only the last unbounded above.
pub open spec fn chain_wf(ss: Seq<Segment>) -> bool {
    (forall|i: int| 0 <= i < ss.len() ==> seg_wf(#[trigger] ss[i])) && (forall|i: int|
        0 <= i < ss.len() - 1 ==> seg_gap(#[trigger] ss[i], ss[i + 1]))
}

/// A set of versions: a finite union of intervals, kept sorted and disjoint.
#[derive(Debug, PartialEq, Eq)]
#[verifier::ext_equal]
pub struct VersionRange {
    pub segments: Vec<Segment>,
}

impl VersionRange {
    /// The set this range stands for.
    pub open spec fn contains_spec(self, v: PEP440Version) -> bool {
        seg_set_contains(self.segments@, v)
    }

    /// The representation invariant: a sorted, separated chain with no
    /// empty sub-interval.
    pub open spec fn wf(self) -> bool {
        chain_wf(self.segments@) && (forall|i: int|
            0 <= i < self.segments@.len() ==> seg_has_version(#[trigger] self.segments@[i]))
    }
}

impl Clone for VersionRange {
    fn clone(&self) -> (r: Self)
        ensures
            r.segments@ == self.segments@,
    {
        let mut segments: Vec<Segment> = Vec::new();
        let mut i: usize = 0;
        while i < self.segments.len()
            invariant
                0 <= i <= self.segments.len(),
                segments@ == self.segments@.subrange(0, i as int),
            decreases self.segments.len() - i,
        {
            segments.push(self.segments[i]);
            i = i + 1;
            proof {
                assert(segments@ =~= self.segments@.subrange(0, i as int));
            }
        }
        proof {
            assert(segments@ =~= self.segments@);
        }
        VersionRange { segments }
    }
}

fn lo_eps_exec(inclusive: bool) -> (r: u8)
    ensures
        r as int == lo_eps(inclusive),
{
    if inclusive {
        0
    } else {
        1
    }
}

fn hi_eps_exec(inclusive: bool) -> (r: u8)
    ensures
        r as int == hi_eps(inclusive),
{
    if inclusive {
        1
    } else {
        0
    }
}

fn pos_lt_exec(a: &PEP440Version, ae: u8, b: &PEP440Version, be: u8) -> (r: bool)
    ensures
        r == pos_lt(*a, ae as int, *b, be as int),
{
    if a.lt(b) {
        true
    } else if a.same_precedence(b) {
        ae < be
    } else {
        false
    }
}

fn pos_le_exec(a: &PEP440Version, ae: u8, b: &PEP440Version, be: u8) -> (r: bool)
    ensures
        r == pos_le(*a, ae as int, *b, be as int),
{
    if a.lt(b) {
        true
    } else if a.same_precedence(b) {
        ae <= be
    } else {
        false
    }
}

fn seg_wf_exec(s: &Segment) -> (r: bool)
    ensures
        r == seg_wf(*s),
{
    match &s.hi {
        None => true,
        Some((h, hinc)) => pos_lt_exec(
            &s.lo,
            lo_eps_exec(s.lo_inclusive),
            h,
            hi_eps_exec(*hinc),
        ),
    }
}

fn seg_contains_exec(s: &Segment, v: &PEP440Version) -> (r: bool)
    ensures
        r == seg_contains(*s, *v),
{
    if !pos_le_exec(&s.lo, lo_eps_exec(s.lo_inclusive), v, 0) {
        return false;
    }
    match &s.hi {
        None => true,
        Some((h, hinc)) => pos_lt_exec(v, 0, h, hi_eps_exec(*hinc)),
    }
}

/// Does the optional upper bound close strictly below the given lower bound?
pub open spec fn hi_lt_bound(h: Option<(PEP440Version, bool)>, lo: PEP440Version, lo_inc: bool) -> bool {
    match h {
        None => false,
        Some((hv, hinc)) => pos_lt(hv, hi_eps(hinc), lo, lo_eps(lo_inc)),
    }
}

/// The doubled bound order is total and transitive.
proof fn lemma_pos_order(
    a: PEP440Version,
    ae: int,
    b: PEP440Version,
    be: int,
    c: PEP440Version,
    ce: int,
)
    ensures
        pos_le(a, ae, b, be) && pos_le(b, be, c, ce) ==> pos_le(a, ae, c, ce),
        pos_lt(a, ae, b, be) && pos_le(b, be, c, ce) ==> pos_lt(a, ae, c, ce),
        pos_le(a, ae, b, be) && pos_lt(b, be, c, ce) ==> pos_lt(a, ae, c, ce),
        pos_lt(a, ae, b, be) && pos_lt(b, be, c, ce) ==> pos_lt(a, ae, c, ce),
        pos_le(a, ae, b, be) == !pos_lt(b, be, a, ae),
{
}

/// Membership in one more segment of a prefix.
proof fn lemma_prefix_snoc(ss: Seq<Segment>, k: int, v: PEP440Version)
    requires
        0 <= k < ss.len(),
    ensures
        seg_prefix_contains(ss, k + 1, v) == (seg_prefix_contains(ss, k, v) || seg_contains(
            ss[k],
            v,
        )),
{
    if seg_prefix_contains(ss, k + 1, v) {
        let i = choose|i: int| 0 <= i < k + 1 && i < ss.len() && seg_contains(ss[i], v);
        if i < k {
            assert(seg_prefix_contains(ss, k, v));
        }
    }
    if seg_contains(ss[k], v) {
        assert(seg_prefix_contains(ss, k + 1, v));
    }
}

/// Membership after appending one segment.
proof fn lemma_set_push(ss: Seq<Segment>, s: Segment, v: PEP440Version)
    ensures
        seg_set_contains(ss.push(s), v) == (seg_set_contains(ss, v) || seg_contains(s, v)),
{
    let ps = ss.push(s);
    if seg_set_contains(ps, v) {
        let i = choose|i: int| 0 <= i < ps.len() && seg_contains(ps[i], v);
        if i < ss.len() {
            assert(ps[i] == ss[i]);
            assert(seg_set_contains(ss, v));
        } else {
            assert(ps[i] == s);
        }
    }
    if seg_set_contains(ss, v) {
        let i = choose|i: int| 0 <= i < ss.len() && seg_contains(ss[i], v);
        assert(ps[i] == ss[i]);
        assert(seg_set_contains(ps, v));
    }
    if seg_contains(s, v) {
        assert(ps[ss.len() as int] == s);
        assert(seg_set_contains(ps, v));
    }
}

/// Is one optional upper bound at or below another?  `None` is unbounded.
pub open spec fn hi_le_opt(x: Option<(PEP440Version, bool)>, y: Option<(PEP440Version, bool)>) -> bool {
    match (x, y) {
        (_, None) => true,
        (None, Some(_)) => false,
        (Some((xv, xi)), Some((yv, yi))) => pos_le(xv, hi_eps(xi), yv, hi_eps(yi)),
    }
}

/// Does segment `a` open at or below where segment `b` opens?
pub open spec fn seg_lo_le(a: Segment, b: Segment) -> bool {
    pos_le(a.lo, lo_eps(a.lo_inclusive), b.lo, lo_eps(b.lo_inclusive))
}

/// Membership in a concatenation of segment lists.
proof fn lemma_set_concat(xs: Seq<Segment>, ys: Seq<Segment>, v: PEP440Version)
    ensures
        seg_set_contains(xs + ys, v) == (seg_set_contains(xs, v) || seg_set_contains(ys, v)),
{
    let zs = xs + ys;
    if seg_set_contains(zs, v) {
        let i = choose|i: int| 0 <= i < zs.len() && seg_contains(zs[i], v);
        if i < xs.len() {
            assert(zs[i] == xs[i]);
            assert(seg_set_contains(xs, v));
        } else {
            assert(zs[i] == ys[i - xs.len()]);
            assert(seg_set_contains(ys, v));
        }
    }
    if seg_set_contains(xs, v) {
        let i = choose|i: int| 0 <= i < xs.len() && seg_contains(xs[i], v);
        assert(zs[i] == xs[i]);
        assert(seg_set_contains(zs, v));
    }
    if seg_set_contains(ys, v) {
        let i = choose|i: int| 0 <= i < ys.len() && seg_contains(ys[i], v);
        assert(zs[xs.len() + i] == ys[i]);
        assert(seg_set_contains(zs, v));
    }
}

/// The overlap of two segments: the higher lower bound and the lower upper
/// bound.
fn seg_intersect(a: &Segment, b: &Segment) -> (r: Segment)
    ensures
        forall|v: PEP440Version|
            seg_contains(r, v) == (seg_contains(*a, v) && seg_contains(*b, v)),
        seg_lo_le(*a, r) && seg_lo_le(*b, r),
        hi_le_opt(r.hi, a.hi) && hi_le_opt(r.hi, b.hi),
        r.hi is None ==> a.hi is None && b.hi is None,
{
    let lo_from_b = pos_lt_exec(
        &a.lo,
        lo_eps_exec(a.lo_inclusive),
        &b.lo,
        lo_eps_exec(b.lo_inclusive),
    );
    let (lo, lo_inclusive) = if lo_from_b {
        (b.lo, b.lo_inclusive)
    } else {
        (a.lo, a.lo_inclusive)
    };
    let hi = match (&a.hi, &b.hi) {
        (None, None) => None,
        (Some(x), None) => Some(*x),
        (None, Some(y)) => Some(*y),
        (Some((xv, xi)), Some((yv, yi))) => {
            if pos_lt_exec(yv, hi_eps_exec(*yi), xv, hi_eps_exec(*xi)) {
                Some((*yv, *yi))
            } else {
                Some((*xv, *xi))
            }
        },
    };
    let r = Segment { lo, lo_inclusive, hi };
    proof {
        lemma_pos_order(a.lo, lo_eps(a.lo_inclusive), b.lo, lo_eps(b.lo_inclusive), r.lo, 0);
        lemma_pos_order(b.lo, lo_eps(b.lo_inclusive), a.lo, lo_eps(a.lo_inclusive), r.lo, 0);
        assert forall|v: PEP440Version|
            seg_contains(r, v) == (seg_contains(*a, v) && seg_contains(*b, v)) by {
            lemma_pos_order(a.lo, lo_eps(a.lo_inclusive), r.lo, lo_eps(r.lo_inclusive), v, 0);
            lemma_pos_order(b.lo, lo_eps(b.lo_inclusive), r.lo, lo_eps(r.lo_inclusive), v, 0);
            match (a.hi, b.hi, r.hi) {
                (Some((av, ai)), Some((bv, bi)), Some((rv, ri))) => {
                    lemma_pos_order(v, 0, rv, hi_eps(ri), av, hi_eps(ai));
                    lemma_pos_order(v, 0, rv, hi_eps(ri), bv, hi_eps(bi));
                    lemma_pos_order(rv, hi_eps(ri), av, hi_eps(ai), bv, hi_eps(bi));
                    lemma_pos_order(rv, hi_eps(ri), bv, hi_eps(bi), av, hi_eps(ai));
                },
                _ => {},
            }
        }
    }
    r
}

/// Clip a single segment against every segment of a well-formed range: the
/// non-empty overlaps, in order.
#[verifier::rlimit(100)]
fn clip_segment(seg: &Segment, other: &VersionRange) -> (out: Vec<Segment>)
    requires
        other.wf(),
        seg_wf(*seg),
    ensures
        chain_wf(out@),
        forall|i: int| 0 <= i < out@.len() ==> seg_has_version(#[trigger] out@[i]),
        forall|v: PEP440Version|
            seg_set_contains(out@, v) == (seg_contains(*seg, v) && other.contains_spec(v)),
        forall|i: int| 0 <= i < out@.len() ==> seg_lo_le(*seg, #[trigger] out@[i]),
        forall|i: int| 0 <= i < out@.len() ==> hi_le_opt(#[trigger] out@[i].hi, seg.hi),
    {
        let ghost os = other.segments@;
        let m = other.segments.len();
        let mut out: Vec<Segment> = Vec::new();
        let mut j: usize = 0;
        while j < m
            invariant
                other.wf(),
                seg_wf(*seg),
                os == other.segments@,
                m == other.segments.len(),
                0 <= j <= m,
                chain_wf(out@),
                forall|q: int| 0 <= q < out@.len() ==> seg_has_version(#[trigger] out@[q]),
                forall|v: PEP440Version|
                    seg_set_contains(out@, v) == (seg_contains(*seg, v) && seg_prefix_contains(
                        os,
                        j as int,
                        v,
                    )),
                forall|i: int| 0 <= i < out@.len() ==> seg_lo_le(*seg, #[trigger] out@[i]),
                forall|i: int| 0 <= i < out@.len() ==> hi_le_opt(#[trigger] out@[i].hi, seg.hi),
                out@.len() > 0 && j < m ==> hi_lt_bound(
                    out@.last().hi,
                    os[j as int].lo,
                    os[j as int].lo_inclusive,
                ),
            decreases m - j,
        {
            let oseg = other.segments[j];
            let cand = seg_intersect(seg, &oseg);
            let ghost out_before = out@;
            let ghost j0 = j as int;
            proof {
                assert(forall|v: PEP440Version|
                    seg_set_contains(out_before, v) == (seg_contains(*seg, v)
                        && seg_prefix_contains(os, j0, v)));
            }
            let keep = seg_wf_exec(&cand) && seg_nonempty(&cand);
            if keep {
                out.push(cand);
            }
            j = j + 1;
            proof {
                let k = j - 1;
                assert(oseg == os[k]);
                assert forall|v: PEP440Version|
                    seg_prefix_contains(os, j as int, v) == (seg_prefix_contains(os, k, v)
                        || seg_contains(os[k], v)) by {
                    lemma_prefix_snoc(os, k, v);
                }
                if keep {
                    assert(out@ == out_before.push(cand));
                    assert forall|v: PEP440Version|
                        seg_set_contains(out@, v) == (seg_contains(*seg, v)
                            && seg_prefix_contains(os, j as int, v)) by {
                        lemma_set_push(out_before, cand, v);
                        assert(seg_set_contains(out_before, v) == (seg_contains(*seg, v)
                            && seg_prefix_contains(os, k, v)));
                        assert(seg_contains(cand, v) == (seg_contains(*seg, v) && seg_contains(
                            os[k],
                            v,
                        )));
                    }
                    if out_before.len() > 0 {
                        assert(hi_lt_bound(out_before.last().hi, oseg.lo, oseg.lo_inclusive));
                        match out_before.last().hi {
                            Some((lh, lhe)) => {
                                lemma_pos_order(
                                    lh,
                                    hi_eps(lhe),
                                    oseg.lo,
                                    lo_eps(oseg.lo_inclusive),
                                    cand.lo,
                                    lo_eps(cand.lo_inclusive),
                                );
                            },
                            None => {},
                        }
                        assert(seg_gap(out_before.last(), cand));
                    }
                    assert forall|i: int| 0 <= i < out@.len() - 1 implies seg_gap(
                        #[trigger] out@[i],
                        out@[i + 1],
                    ) by {
                        if i < out_before.len() - 1 {
                            assert(out@[i] == out_before[i]);
                            assert(out@[i + 1] == out_before[i + 1]);
                        }
                    }
                } else {
                    // The overlap holds no version: nothing satisfies both.
                    assert forall|v: PEP440Version|
                        seg_set_contains(out@, v) == (seg_contains(*seg, v)
                            && seg_prefix_contains(os, j as int, v)) by {
                        if seg_wf(cand) {
                            assert(!seg_has_version(cand));
                        } else {
                            match cand.hi {
                                Some((cv, ce)) => {
                                    lemma_pos_order(
                                        cand.lo,
                                        lo_eps(cand.lo_inclusive),
                                        v,
                                        0,
                                        cv,
                                        hi_eps(ce),
                                    );
                                },
                                None => {},
                            }
                        }
                        assert(!seg_contains(cand, v));
                        assert(out@ == out_before);
                        assert(k == j0);
                        assert(seg_set_contains(out_before, v) == (seg_contains(*seg, v)
                            && seg_prefix_contains(os, j0, v)));
                        assert(seg_contains(cand, v) == (seg_contains(*seg, v) && seg_contains(
                            os[k],
                            v,
                        )));
                    }
                }
                // The next source segment opens above everything kept.
                if out@.len() > 0 && j < m {
                    assert(seg_gap(os[k], os[j as int]));
                    if keep {
                        assert(hi_le_opt(cand.hi, oseg.hi));
                        match (cand.hi, oseg.hi) {
                            (Some((ch, che)), Some((oh, ohe))) => {
                                lemma_pos_order(
                                    ch,
                                    hi_eps(che),
                                    oh,
                                    hi_eps(ohe),
                                    os[j as int].lo,
                                    lo_eps(os[j as int].lo_inclusive),
                                );
                            },
                            _ => {},
                        }
                        assert(hi_lt_bound(out@.last().hi, os[j as int].lo, os[j as int].lo_inclusive));
                    } else {
                        assert(out@.last() == out_before.last());
                        assert(seg_wf(os[k]));
                        match out_before.last().hi {
                            Some((lh, lhe)) => {
                                lemma_pos_order(
                                    lh,
                                    hi_eps(lhe),
                                    os[k].lo,
                                    lo_eps(os[k].lo_inclusive),
                                    os[j as int].lo,
                                    lo_eps(os[j as int].lo_inclusive),
                                );
                                match os[k].hi {
                                    Some((kh, khe)) => {
                                        lemma_pos_order(
                                            os[k].lo,
                                            lo_eps(os[k].lo_inclusive),
                                            kh,
                                            hi_eps(khe),
                                            os[j as int].lo,
                                            lo_eps(os[j as int].lo_inclusive),
                                        );
                                    },
                                    None => {},
                                }
                            },
                            None => {},
                        }
                        assert(hi_lt_bound(out@.last().hi, os[j as int].lo, os[j as int].lo_inclusive));
                    }
                }
            }
        }
        proof {
            assert forall|v: PEP440Version|
                seg_prefix_contains(os, m as int, v) == other.contains_spec(v) by {
                if other.contains_spec(v) {
                    let i = choose|i: int| 0 <= i < os.len() && seg_contains(os[i], v);
                    assert(seg_prefix_contains(os, m as int, v));
                }
            }
        }
        out
    }

/// Loop-invariant shape of intersection: the output covers exactly the
/// prefix of the left operand, cut down to the right operand.
spec fn inter_inv(out: Seq<Segment>, ss: Seq<Segment>, k: int, other: VersionRange) -> bool {
    forall|v: PEP440Version|
        #[trigger] seg_set_contains(out, v) == (seg_prefix_contains(ss, k, v)
            && other.contains_spec(v))
}

impl VersionRange {
    /// The empty set of versions.
    pub fn none() -> (r: VersionRange)
        ensures
            r.wf(),
            forall|v: PEP440Version| !r.contains_spec(v),
    {
        VersionRange { segments: Vec::new() }
    }

    /// The set of all versions.
    pub fn any() -> (r: VersionRange)
        ensures
            r.wf(),
            forall|v: PEP440Version| r.contains_spec(v),
    {
        let mut segments: Vec<Segment> = Vec::new();
        segments.push(Segment { lo: PEP440Version::zero(), lo_inclusive: true, hi: None });
        let r = VersionRange { segments };
        proof {
            assert forall|v: PEP440Version| r.contains_spec(v) by {
                assert(seg_contains(r.segments@[0], v));
            }
            assert(seg_has_version(r.segments@[0])) by {
                assert(seg_contains(r.segments@[0], PEP440Version::new_spec(0, 0, 0)));
            }
        }
        r
    }

    /// The versions order-equivalent to `v`, and nothing else.
    pub fn exact(v: PEP440Version) -> (r: VersionRange)
        ensures
            r.wf(),
            forall|w: PEP440Version| r.contains_spec(w) == key_eq(v, w),
    {
        let mut segments: Vec<Segment> = Vec::new();
        segments.push(Segment { lo: v, lo_inclusive: true, hi: Some((v, true)) });
        let r = VersionRange { segments };
        proof {
            assert forall|w: PEP440Version| r.contains_spec(w) == key_eq(v, w) by {
                if key_eq(v, w) {
                    assert(seg_contains(r.segments@[0], w));
                }
            }
            assert(seg_has_version(r.segments@[0])) by {
                assert(seg_contains(r.segments@[0], v));
            }
        }
        r
    }

    /// Every version at or above `v`: the half-open interval `[v, +oo)`.
    pub fn higher_than(v: PEP440Version) -> (r: VersionRange)
        ensures
            r.wf(),
            forall|w: PEP440Version| r.contains_spec(w) == key_le(v, w),
    {
        let mut segments: Vec<Segment> = Vec::new();
        segments.push(Segment { lo: v, lo_inclusive: true, hi: None });
        let r = VersionRange { segments };
        proof {
            assert forall|w: PEP440Version| r.contains_spec(w) == key_le(v, w) by {
                if key_le(v, w) {
                    assert(seg_contains(r.segments@[0], w));
                }
            }
            assert(seg_has_version(r.segments@[0])) by {
                assert(seg_contains(r.segments@[0], v));
            }
        }
        r
    }

    /// Every version strictly below `v`.
    pub fn strictly_lower_than(v: PEP440Version) -> (r: VersionRange)
        ensures
            r.wf(),
            forall|w: PEP440Version| r.contains_spec(w) == key_lt(w, v),
    {
        let zero = PEP440Version::zero();
        if !zero.lt(&v) {
            let r = VersionRange::none();
            proof {
                assert forall|w: PEP440Version| !(key_lt(w, v)) by {}
            }
            r
        } else {
            let mut segments: Vec<Segment> = Vec::new();
            segments.push(Segment { lo: zero, lo_inclusive: true, hi: Some((v, false)) });
            let r = VersionRange { segments };
            proof {
                assert forall|w: PEP440Version| r.contains_spec(w) == key_lt(w, v) by {
                    if key_lt(w, v) {
                        assert(seg_contains(r.segments@[0], w));
                    }
                }
                assert(seg_has_version(r.segments@[0])) by {
                    assert(seg_contains(r.segments@[0], PEP440Version::new_spec(0, 0, 0)));
                }
            }
            r
        }
    }

    /// The half-open interval `[v1, v2)`.
    pub fn between(v1: PEP440Version, v2: PEP440Version) -> (r: VersionRange)
        ensures
            r.wf(),
            forall|w: PEP440Version| r.contains_spec(w) == (key_le(v1, w) && key_lt(w, v2)),
    {
        if v1.lt(&v2) {
            let mut segments: Vec<Segment> = Vec::new();
            segments.push(Segment { lo: v1, lo_inclusive: true, hi: Some((v2, false)) });
            let r = VersionRange { segments };
            proof {
                assert forall|w: PEP440Version|
                    r.contains_spec(w) == (key_le(v1, w) && key_lt(w, v2)) by {
                    if key_le(v1, w) && key_lt(w, v2) {
                        assert(seg_contains(r.segments@[0], w));
                    }
                }
                assert(seg_has_version(r.segments@[0])) by {
                    assert(seg_contains(r.segments@[0], v1));
                }
            }
            r
        } else {
            VersionRange::none()
        }
    }

    /// The complement set.
    pub fn negate(&self) -> (r: VersionRange)
        requires
            self.wf(),
        ensures
            r.wf(),
            forall|v: PEP440Version| r.contains_spec(v) == !self.contains_spec(v),
    {
        let ghost ss = self.segments@;
        let n = self.segments.len();
        let mut out: Vec<Segment> = Vec::new();
        let mut cur: Option<(PEP440Version, bool)> = Some((PEP440Version::zero(), true));
        let mut idx: usize = 0;
        while idx < n
            invariant
                self.wf(),
                ss == self.segments@,
                n == self.segments.len(),
                0 <= idx <= n,
                chain_wf(out@),
                forall|q: int| 0 <= q < out@.len() ==> seg_has_version(#[trigger] out@[q]),
                match cur {
                    Some((c, ci)) => {
                        &&& (forall|v: PEP440Version|
                            seg_set_contains(out@, v) == (pos_lt(v, 0, c, lo_eps(ci))
                                && !seg_prefix_contains(ss, idx as int, v)))
                        &&& (forall|v: PEP440Version|
                            pos_le(c, lo_eps(ci), v, 0) ==> !seg_prefix_contains(
                                ss,
                                idx as int,
                                v,
                            ))
                        &&& (out@.len() > 0 ==> hi_lt_bound(out@.last().hi, c, ci))
                        &&& (idx < n ==> pos_le(
                            c,
                            lo_eps(ci),
                            ss[idx as int].lo,
                            lo_eps(ss[idx as int].lo_inclusive),
                        ))
                    },
                    None => {
                        &&& idx == n
                        &&& (forall|v: PEP440Version|
                            seg_set_contains(out@, v) == !seg_set_contains(ss, v))
                        &&& (forall|i: int| 0 <= i < out@.len() ==> out@[i].hi is Some)
                    },
                },
            decreases n - idx,
        {
            let seg = self.segments[idx];
            let (c, ci) = match cur {
                Some(p) => p,
                None => {
                    proof {
                        assert(false);
                    }
                    (PEP440Version::zero(), true)
                },
            };
            let ghost out_before = out@;
            let cand = Segment { lo: c, lo_inclusive: ci, hi: Some((seg.lo, !seg.lo_inclusive)) };
            let pushed = seg_wf_exec(&cand) && seg_nonempty(&cand);
            if pushed {
                out.push(cand);
            }
            cur = match seg.hi {
                None => None,
                Some((h, hinc)) => Some((h, !hinc)),
            };
            idx = idx + 1;
            proof {
                let k = idx - 1;
                assert(seg == ss[k]);
                if pushed {
                    assert(out@ == out_before.push(cand));
                }
                assert forall|v: PEP440Version|
                    seg_prefix_contains(ss, idx as int, v) == (seg_prefix_contains(ss, k, v)
                        || seg_contains(ss[k], v)) by {
                    lemma_prefix_snoc(ss, k, v);
                }
                if pushed {
                    assert forall|v: PEP440Version|
                        seg_set_contains(out@, v) == (seg_set_contains(out_before, v)
                            || seg_contains(cand, v)) by {
                        lemma_set_push(out_before, cand, v);
                    }
                } else {
                    // The candidate holds no version: either its bounds
                    // leave no room, or no version lies between them.
                    assert(pos_le(c, lo_eps(ci), seg.lo, lo_eps(seg.lo_inclusive)));
                }
                let sl = seg.lo;
                let sle = lo_eps(seg.lo_inclusive);
                assert(seg_wf(seg));
                match cur {
                    Some((c2, ci2)) => {
                        match seg.hi {
                            Some((hv, hinc)) => {
                                assert(c2 == hv && ci2 == !hinc);
                                assert(lo_eps(ci2) == hi_eps(hinc));
                                // Everything at or above the new cursor is
                                // outside the extended prefix.
                                assert forall|v: PEP440Version|
                                    pos_le(c2, lo_eps(ci2), v, 0) implies !seg_prefix_contains(
                                    ss,
                                    idx as int,
                                    v,
                                ) by {
                                    lemma_pos_order(c, lo_eps(ci), sl, sle, v, 0);
                                    lemma_pos_order(sl, sle, hv, hi_eps(hinc), v, 0);
                                    lemma_pos_order(v, 0, hv, hi_eps(hinc), v, 0);
                                    assert(!seg_contains(ss[k], v));
                                    assert(pos_le(c, lo_eps(ci), v, 0));
                                }
                                // Membership of the output so far.
                                assert forall|v: PEP440Version|
                                    seg_set_contains(out@, v) == (pos_lt(v, 0, c2, lo_eps(ci2))
                                        && !seg_prefix_contains(ss, idx as int, v)) by {
                                    lemma_pos_order(v, 0, c, lo_eps(ci), sl, sle);
                                    lemma_pos_order(v, 0, sl, sle, hv, hi_eps(hinc));
                                    lemma_pos_order(c, lo_eps(ci), v, 0, sl, sle);
                                    lemma_pos_order(sl, sle, v, 0, hv, hi_eps(hinc));
                                    lemma_pos_order(c, lo_eps(ci), sl, sle, v, 0);
                                    if pushed {
                                        if seg_set_contains(out_before, v) {
                                            assert(pos_lt(v, 0, c, lo_eps(ci)));
                                            assert(!seg_contains(ss[k], v));
                                        }
                                        if seg_contains(cand, v) {
                                            assert(pos_le(c, lo_eps(ci), v, 0));
                                            assert(!seg_contains(ss[k], v));
                                        }
                                        if pos_lt(v, 0, c2, lo_eps(ci2)) && !seg_prefix_contains(
                                            ss,
                                            idx as int,
                                            v,
                                        ) && !pos_lt(v, 0, c, lo_eps(ci)) {
                                            assert(pos_le(c, lo_eps(ci), v, 0));
                                            if pos_lt(v, 0, sl, sle) {
                                                assert(seg_contains(cand, v));
                                            } else {
                                                assert(pos_le(sl, sle, v, 0));
                                                assert(seg_contains(ss[k], v));
                                                assert(false);
                                            }
                                        }
                                    } else {
                                        assert(!seg_contains(cand, v)) by {
                                            if seg_wf(cand) {
                                                assert(!seg_has_version(cand));
                                            } else if seg_contains(cand, v) {
                                                lemma_pos_order(
                                                    c,
                                                    lo_eps(ci),
                                                    v,
                                                    0,
                                                    sl,
                                                    sle,
                                                );
                                            }
                                        }
                                        if seg_set_contains(out@, v) {
                                            assert(pos_lt(v, 0, c, lo_eps(ci)));
                                            assert(!seg_contains(ss[k], v));
                                        }
                                        if pos_lt(v, 0, c2, lo_eps(ci2)) && !seg_prefix_contains(
                                            ss,
                                            idx as int,
                                            v,
                                        ) && !pos_lt(v, 0, c, lo_eps(ci)) {
                                            assert(pos_le(c, lo_eps(ci), v, 0));
                                            if pos_lt(v, 0, sl, sle) {
                                                assert(seg_contains(cand, v));
                                                assert(false);
                                            } else {
                                                assert(pos_le(sl, sle, v, 0));
                                                assert(seg_contains(ss[k], v));
                                                assert(false);
                                            }
                                        }
                                    }
                                }
                                // The output chain stays well formed, below
                                // the new cursor.
                                if pushed {
                                    if out_before.len() > 0 {
                                        assert(seg_gap(out_before.last(), cand));
                                    }
                                    assert(hi_lt_bound(out@.last().hi, c2, ci2));
                                    assert(chain_wf(out@)) by {
                                        assert forall|i: int|
                                            0 <= i < out@.len() - 1 implies seg_gap(
                                            #[trigger] out@[i],
                                            out@[i + 1],
                                        ) by {
                                            if i < out_before.len() - 1 {
                                                assert(out@[i] == out_before[i]);
                                                assert(out@[i + 1] == out_before[i + 1]);
                                            }
                                        }
                                    }
                                } else {
                                    if out@.len() > 0 {
                                        lemma_pos_order(c, lo_eps(ci), sl, sle, hv, hi_eps(hinc));
                                        match out@.last().hi {
                                            Some((lh, lhi)) => {
                                                lemma_pos_order(
                                                    lh,
                                                    hi_eps(lhi),
                                                    c,
                                                    lo_eps(ci),
                                                    hv,
                                                    hi_eps(hinc),
                                                );
                                            },
                                            None => {},
                                        }
                                        assert(hi_lt_bound(out@.last().hi, c2, ci2));
                                    }
                                }
                                // The new cursor sits at or below the next
                                // segment.
                                if idx < n {
                                    assert(seg_gap(ss[k], ss[idx as int]));
                                }
                            },
                            None => {
                                assert(false);
                            },
                        }
                    },
                    None => {
                        assert(seg.hi is None);
                        assert(idx == n) by {
                            if idx < n {
                                assert(seg_gap(ss[k], ss[k + 1]));
                            }
                        }
                        assert forall|v: PEP440Version|
                            seg_set_contains(out@, v) == !seg_set_contains(ss, v) by {
                            assert(seg_prefix_contains(ss, idx as int, v) == seg_set_contains(
                                ss,
                                v,
                            ));
                            lemma_pos_order(v, 0, c, lo_eps(ci), sl, sle);
                            lemma_pos_order(c, lo_eps(ci), v, 0, sl, sle);
                            lemma_pos_order(c, lo_eps(ci), sl, sle, v, 0);
                            if pushed {
                                if seg_set_contains(out_before, v) {
                                    assert(pos_lt(v, 0, c, lo_eps(ci)));
                                    assert(!seg_contains(ss[k], v));
                                }
                                if seg_contains(cand, v) {
                                    assert(pos_le(c, lo_eps(ci), v, 0));
                                    assert(!seg_contains(ss[k], v));
                                }
                                if !seg_set_contains(ss, v) && !pos_lt(v, 0, c, lo_eps(ci)) {
                                    assert(pos_le(c, lo_eps(ci), v, 0));
                                    assert(!seg_contains(ss[k], v));
                                    assert(pos_lt(v, 0, sl, sle));
                                    assert(seg_contains(cand, v));
                                }
                            } else {
                                assert(!seg_contains(cand, v)) by {
                                    if seg_wf(cand) {
                                        assert(!seg_has_version(cand));
                                    } else if seg_contains(cand, v) {
                                        lemma_pos_order(c, lo_eps(ci), v, 0, sl, sle);
                                    }
                                }
                                if seg_set_contains(out@, v) {
                                    assert(pos_lt(v, 0, c, lo_eps(ci)));
                                    assert(!seg_contains(ss[k], v));
                                }
                                if !seg_set_contains(ss, v) && !pos_lt(v, 0, c, lo_eps(ci)) {
                                    assert(pos_le(c, lo_eps(ci), v, 0));
                                    assert(!seg_contains(ss[k], v));
                                    assert(pos_lt(v, 0, sl, sle));
                                    assert(seg_contains(cand, v));
                                    assert(false);
                                }
                            }
                        }
                        assert forall|i: int| 0 <= i < out@.len() implies out@[i].hi is Some by {
                            if i < out@.len() - 1 {
                                assert(seg_gap(out@[i], out@[i + 1]));
                            } else if pushed {
                                assert(out@[i] == cand);
                            } else {
                                if out_before.len() > 0 {
                                    assert(hi_lt_bound(out_before.last().hi, c, ci));
                                }
                            }
                        }
                    },
                }
            }
        }
        match cur {
            Some((c, ci)) => {
                let ghost out_before = out@;
                let tail = Segment { lo: c, lo_inclusive: ci, hi: None };
                if !seg_nonempty(&tail) {
                    // Nothing sits at or above the cursor: the complement is
                    // already complete.
                    proof {
                        assert forall|v: PEP440Version|
                            seg_set_contains(out@, v) == !seg_set_contains(ss, v) by {
                            lemma_pos_order(c, lo_eps(ci), v, 0, v, 0);
                            assert(!seg_contains(tail, v));
                            assert(pos_lt(v, 0, c, lo_eps(ci)));
                            assert(seg_prefix_contains(ss, n as int, v) == seg_set_contains(
                                ss,
                                v,
                            ));
                        }
                    }
                    let r = VersionRange { segments: out };
                    return r;
                }
                out.push(tail);
                proof {
                    assert forall|v: PEP440Version|
                        seg_set_contains(out@, v) == (seg_set_contains(out_before, v)
                            || seg_contains(tail, v)) by {
                        lemma_set_push(out_before, tail, v);
                    }
                    assert forall|v: PEP440Version|
                        seg_set_contains(out@, v) == !seg_set_contains(ss, v) by {
                        lemma_pos_order(c, lo_eps(ci), v, 0, v, 0);
                        assert(seg_prefix_contains(ss, n as int, v) == seg_set_contains(ss, v));
                        if !seg_set_contains(ss, v) && !pos_lt(v, 0, c, lo_eps(ci)) {
                            assert(pos_le(c, lo_eps(ci), v, 0));
                            assert(seg_contains(tail, v));
                        }
                        if seg_contains(tail, v) {
                            assert(pos_le(c, lo_eps(ci), v, 0));
                        }
                    }
                    assert(chain_wf(out@)) by {
                        assert forall|i: int|
                            0 <= i < out@.len() - 1 implies seg_gap(
                            #[trigger] out@[i],
                            out@[i + 1],
                        ) by {
                            if i < out_before.len() - 1 {
                                assert(out@[i] == out_before[i]);
                                assert(out@[i + 1] == out_before[i + 1]);
                            } else {
                                assert(hi_lt_bound(out_before.last().hi, c, ci));
                            }
                        }
                    }
                }
            },
            None => {},
        }
        let r = VersionRange { segments: out };
        r
    }

    /// The intersection of two sets.
    #[verifier::rlimit(100)]
    pub fn intersection(&self, other: &VersionRange) -> (r: VersionRange)
        requires
            self.wf(),
            other.wf(),
        ensures
            r.wf(),
            forall|v: PEP440Version|
                r.contains_spec(v) == (self.contains_spec(v) && other.contains_spec(v)),
    {
        let ghost ss = self.segments@;
        let n = self.segments.len();
        let mut out: Vec<Segment> = Vec::new();
        let mut i: usize = 0;
        while i < n
            invariant
                self.wf(),
                other.wf(),
                ss == self.segments@,
                n == self.segments.len(),
                0 <= i <= n,
                chain_wf(out@),
                forall|q: int| 0 <= q < out@.len() ==> seg_has_version(#[trigger] out@[q]),
                inter_inv(out@, ss, i as int, *other),
                out@.len() > 0 && i < n ==> hi_lt_bound(
                    out@.last().hi,
                    ss[i as int].lo,
                    ss[i as int].lo_inclusive,
                ),
            decreases n - i,
        {
            let seg = self.segments[i];
            let ghost i0 = i as int;
            let ghost out_start = out@;
            proof {
                assert(inter_inv(out_start, ss, i0, *other));
            }
            let part = clip_segment(&seg, other);
            let ghost ps = part@;
            let mut tj: usize = 0;
            while tj < part.len()
                invariant
                    0 <= tj <= part.len(),
                    ps == part@,
                    out@ == out_start + ps.subrange(0, tj as int),
                    chain_wf(out_start),
                    chain_wf(ps),
                    chain_wf(out@),
                    forall|q: int| 0 <= q < out_start.len() ==> seg_has_version(
                        #[trigger] out_start[q],
                    ),
                    forall|q: int| 0 <= q < ps.len() ==> seg_has_version(#[trigger] ps[q]),
                    forall|q: int| 0 <= q < out@.len() ==> seg_has_version(#[trigger] out@[q]),
                    out_start.len() > 0 && ps.len() > 0 ==> seg_gap(out_start.last(), ps[0]),
                decreases part.len() - tj,
            {
                let nxt = part[tj];
                let ghost out_mid = out@;
                out.push(nxt);
                tj = tj + 1;
                proof {
                    assert(out@ =~= out_start + ps.subrange(0, tj as int));
                    assert(nxt == ps[tj - 1]);
                    assert forall|j: int| 0 <= j < out@.len() - 1 implies seg_gap(
                        #[trigger] out@[j],
                        out@[j + 1],
                    ) by {
                        if j < out_mid.len() - 1 {
                            assert(out@[j] == out_mid[j]);
                            assert(out@[j + 1] == out_mid[j + 1]);
                            assert(seg_gap(out_mid[j], out_mid[j + 1]));
                        } else if j == out_mid.len() - 1 {
                            if j == out_start.len() - 1 {
                                assert(out@[j] == out_start.last());
                                assert(out@[j + 1] == ps[0]);
                            } else {
                                let pj = j - out_start.len();
                                assert(out@[j] == ps[pj]);
                                assert(out@[j + 1] == ps[pj + 1]);
                                assert(seg_gap(ps[pj], ps[pj + 1]));
                            }
                        }
                    }
                    assert forall|j: int| 0 <= j < out@.len() implies seg_wf(
                        #[trigger] out@[j],
                    ) by {
                        if j < out_start.len() {
                            assert(out@[j] == out_start[j]);
                        } else {
                            assert(out@[j] == ps[j - out_start.len()]);
                        }
                    }
                }
            }
            proof {
                assert(ps.subrange(0, ps.len() as int) =~= ps);
            }
            i = i + 1;
            proof {
                let k = i - 1;
                assert(seg == ss[k]);
                assert forall|v: PEP440Version|
                    seg_prefix_contains(ss, i as int, v) == (seg_prefix_contains(ss, k, v)
                        || seg_contains(ss[k], v)) by {
                    lemma_prefix_snoc(ss, k, v);
                }
                assert forall|v: PEP440Version|
                    #[trigger] seg_set_contains(out@, v) == (seg_prefix_contains(ss, i as int, v)
                        && other.contains_spec(v)) by {
                        lemma_set_concat(out_start, ps, v);
                        assert(seg_set_contains(out@, v) == (seg_set_contains(out_start, v)
                            || seg_set_contains(ps, v)));
                        assert(k == i0);
                        assert(inter_inv(out_start, ss, i0, *other));
                        assert(seg_set_contains(out_start, v) == (seg_prefix_contains(ss, i0, v)
                            && other.contains_spec(v)));
                        assert(seg_set_contains(ps, v) == (seg_contains(seg, v)
                            && other.contains_spec(v)));
                }
                assert(inter_inv(out@, ss, i as int, *other));
                // The last upper bound stays below the next segment.
                if out@.len() > 0 && i < n {
                    assert(seg_gap(ss[k], ss[i as int]));
                    assert(seg_wf(ss[k]));
                    if ps.len() > 0 {
                        assert(out@.last() == ps.last());
                        assert(hi_le_opt(ps.last().hi, seg.hi));
                        match (ps.last().hi, seg.hi) {
                            (Some((lh, lhe)), Some((sh, she))) => {
                                lemma_pos_order(
                                    lh,
                                    hi_eps(lhe),
                                    sh,
                                    hi_eps(she),
                                    ss[i as int].lo,
                                    lo_eps(ss[i as int].lo_inclusive),
                                );
                            },
                            _ => {},
                        }
                        assert(hi_lt_bound(
                            out@.last().hi,
                            ss[i as int].lo,
                            ss[i as int].lo_inclusive,
                        ));
                    } else {
                        assert(out@.last() == out_start.last());
                        match (out_start.last().hi, seg.hi) {
                            (Some((lh, lhe)), Some((sh, she))) => {
                                lemma_pos_order(
                                    lh,
                                    hi_eps(lhe),
                                    seg.lo,
                                    lo_eps(seg.lo_inclusive),
                                    sh,
                                    hi_eps(she),
                                );
                                lemma_pos_order(
                                    lh,
                                    hi_eps(lhe),
                                    sh,
                                    hi_eps(she),
                                    ss[i as int].lo,
                                    lo_eps(ss[i as int].lo_inclusive),
                                );
                            },
                            _ => {},
                        }
                        assert(hi_lt_bound(
                            out@.last().hi,
                            ss[i as int].lo,
                            ss[i as int].lo_inclusive,
                        ));
                    }
                }
            }
        }
        proof {
            assert(inter_inv(out@, ss, n as int, *other));
            assert forall|v: PEP440Version|
                seg_set_contains(out@, v) == (seg_set_contains(ss, v) && other.contains_spec(v)) by {
                assert(seg_set_contains(out@, v) == (seg_prefix_contains(ss, n as int, v)
                    && other.contains_spec(v)));
                if seg_set_contains(ss, v) {
                    let i = choose|i: int| 0 <= i < ss.len() && seg_contains(ss[i], v);
                    assert(seg_prefix_contains(ss, n as int, v));
                }
                if seg_prefix_contains(ss, n as int, v) {
                    let i = choose|i: int| 0 <= i < n && i < ss.len() && seg_contains(ss[i], v);
                    assert(seg_set_contains(ss, v));
                }
            }
        }
        VersionRange { segments: out }
    }

    /// The union of two sets, as the complement of the intersection of the
    /// complements.
    pub fn union(&self, other: &VersionRange) -> (r: VersionRange)
        requires
            self.wf(),
            other.wf(),
        ensures
            r.wf(),
            forall|v: PEP440Version|
                r.contains_spec(v) == (self.contains_spec(v) || other.contains_spec(v)),
    {
        self.negate().intersection(&other.negate()).negate()
    }

    /// Is `version` in the set?
    pub fn contains(&self, version: &PEP440Version) -> (r: bool)
        ensures
            r == self.contains_spec(*version),
    {
        let mut i: usize = 0;
        while i < self.segments.len()
            invariant
                0 <= i <= self.segments.len(),
                forall|j: int| 0 <= j < i ==> !seg_contains(self.segments@[j], *version),
            decreases self.segments.len() - i,
        {
            if seg_contains_exec(&self.segments[i], version) {
                return true;
            }
            i = i + 1;
        }
        false
    }
}


/// The version with the next precedence key after `a`, or `None` where `a`
/// already has the greatest key.
pub open spec fn key_succ(a: PEP440Version) -> Option<PEP440Version> {
    if opt_rank(a.dev) < u32::MAX {
        Some(
            PEP440Version {
                major: a.major,
                minor: a.minor,
                patch: a.patch,
                epoch: a.epoch,
                pre: None,
                post: a.post,
                dev: Some((opt_rank(a.dev) + 1) as u32),
            },
        )
    } else if opt_rank(a.post) < u32::MAX {
        Some(
            PEP440Version {
                major: a.major,
                minor: a.minor,
                patch: a.patch,
                epoch: a.epoch,
                pre: None,
                post: Some((opt_rank(a.post) + 1) as u32),
                dev: None,
            },
        )
    } else if a.patch < u32::MAX {
        Some(
            PEP440Version {
                major: a.major,
                minor: a.minor,
                patch: (a.patch + 1) as u32,
                epoch: a.epoch,
                pre: None,
                post: None,
                dev: None,
            },
        )
    } else if a.minor < u32::MAX {
        Some(
            PEP440Version {
                major: a.major,
                minor: (a.minor + 1) as u32,
                patch: 0,
                epoch: a.epoch,
                pre: None,
                post: None,
                dev: None,
            },
        )
    } else if a.major < u32::MAX {
        Some(
            PEP440Version {
                major: (a.major + 1) as u32,
                minor: 0,
                patch: 0,
                epoch: a.epoch,
                pre: None,
                post: None,
                dev: None,
            },
        )
    } else if a.epoch < u32::MAX {
        Some(
            PEP440Version {
                major: 0,
                minor: 0,
                patch: 0,
                epoch: (a.epoch + 1) as u32,
                pre: None,
                post: None,
                dev: None,
            },
        )
    } else {
        None
    }
}

/// The successor key is the least key strictly above `a`; a version with
/// every axis at its maximum has none above it.
pub proof fn lemma_key_succ(a: PEP440Version)
    ensures
        match key_succ(a) {
            Some(s) => key_lt(a, s) && (forall|x: PEP440Version|
                key_lt(a, x) ==> key_le(s, x)),
            None => forall|x: PEP440Version| !key_lt(a, x),
        },
{
    match key_succ(a) {
        Some(s) => {
            assert(key_lt(a, s));
            assert forall|x: PEP440Version| key_lt(a, x) implies key_le(s, x) by {}
        },
        None => {
            assert forall|x: PEP440Version| !key_lt(a, x) by {}
        },
    }
}

fn key_succ_exec(a: &PEP440Version) -> (r: Option<PEP440Version>)
    ensures
        r == key_succ(*a),
{
    match a.dev {
        None => Some(
            PEP440Version {
                major: a.major,
                minor: a.minor,
                patch: a.patch,
                epoch: a.epoch,
                pre: None,
                post: a.post,
                dev: Some(0),
            },
        ),
        Some(d) => {
            if d < u32::MAX {
                Some(
                    PEP440Version {
                        major: a.major,
                        minor: a.minor,
                        patch: a.patch,
                        epoch: a.epoch,
                        pre: None,
                        post: a.post,
                        dev: Some(d + 1),
                    },
                )
            } else {
                match a.post {
                    None => Some(
                        PEP440Version {
                            major: a.major,
                            minor: a.minor,
                            patch: a.patch,
                            epoch: a.epoch,
                            pre: None,
                            post: Some(0),
                            dev: None,
                        },
                    ),
                    Some(pn) => {
                        if pn < u32::MAX {
                            Some(
                                PEP440Version {
                                    major: a.major,
                                    minor: a.minor,
                                    patch: a.patch,
                                    epoch: a.epoch,
                                    pre: None,
                                    post: Some(pn + 1),
                                    dev: None,
                                },
                            )
                        } else if a.patch < u32::MAX {
                            Some(
                                PEP440Version {
                                    major: a.major,
                                    minor: a.minor,
                                    patch: a.patch + 1,
                                    epoch: a.epoch,
                                    pre: None,
                                    post: None,
                                    dev: None,
                                },
                            )
                        } else if a.minor < u32::MAX {
                            Some(
                                PEP440Version {
                                    major: a.major,
                                    minor: a.minor + 1,
                                    patch: 0,
                                    epoch: a.epoch,
                                    pre: None,
                                    post: None,
                                    dev: None,
                                },
                            )
                        } else if a.major < u32::MAX {
                            Some(
                                PEP440Version {
                                    major: a.major + 1,
                                    minor: 0,
                                    patch: 0,
                                    epoch: a.epoch,
                                    pre: None,
                                    post: None,
                                    dev: None,
                                },
                            )
                        } else if a.epoch < u32::MAX {
                            Some(
                                PEP440Version {
                                    major: 0,
                                    minor: 0,
                                    patch: 0,
                                    epoch: a.epoch + 1,
                                    pre: None,
                                    post: None,
                                    dev: None,
                                },
                            )
                        } else {
                            None
                        }
                    },
                }
            }
        },
    }
}

/// Does the segment hold at least one version?  Bounds that leave room in
/// the doubled order can still hold no version, where both are exclusive
/// and nothing lies between them.
fn seg_nonempty(s: &Segment) -> (r: bool)
    ensures
        r == seg_has_version(*s),
{
    if s.lo_inclusive {
        let ok = match &s.hi {
            None => true,
            Some((h, hinc)) => pos_lt_exec(&s.lo, 0, h, hi_eps_exec(*hinc)),
        };
        proof {
            if ok {
                assert(seg_contains(*s, s.lo));
            } else {
                assert forall|v: PEP440Version| !seg_contains(*s, v) by {
                    match s.hi {
                        Some((h, hinc)) => {
                            lemma_pos_order(s.lo, 0, v, 0, h, hi_eps(hinc));
                        },
                        None => {},
                    }
                }
            }
        }
        ok
    } else {
        match &s.hi {
            None => {
                let sv = key_succ_exec(&s.lo);
                proof {
                    lemma_key_succ(s.lo);
                }
                match sv {
                    Some(w) => {
                        proof {
                            assert(seg_contains(*s, w));
                        }
                        true
                    },
                    None => {
                        proof {
                            assert forall|v: PEP440Version| !seg_contains(*s, v) by {}
                        }
                        false
                    },
                }
            },
            Some((h, hinc)) => {
                if *hinc {
                    let r = s.lo.lt(h);
                    proof {
                        if r {
                            assert(seg_contains(*s, *h));
                        } else {
                            assert forall|v: PEP440Version| !seg_contains(*s, v) by {}
                        }
                    }
                    r
                } else {
                    let sv = key_succ_exec(&s.lo);
                    proof {
                        lemma_key_succ(s.lo);
                    }
                    match sv {
                        None => {
                            proof {
                                assert forall|v: PEP440Version| !seg_contains(*s, v) by {}
                            }
                            false
                        },
                        Some(w) => {
                            let r = w.lt(h);
                            proof {
                                if r {
                                    assert(seg_contains(*s, w));
                                } else {
                                    assert forall|v: PEP440Version| !seg_contains(*s, v) by {}
                                }
                            }
                            r
                        },
                    }
                }
            },
        }
    }
}

impl VersionRange {
    /// Does the set hold no version at all?
    pub fn is_empty(&self) -> (r: bool)
        ensures
            r == !(exists|v: PEP440Version| self.contains_spec(v)),
    {
        let mut i: usize = 0;
        while i < self.segments.len()
            invariant
                0 <= i <= self.segments.len(),
                forall|j: int, v: PEP440Version|
                    0 <= j < i ==> !#[trigger] seg_contains(self.segments@[j], v),
            decreases self.segments.len() - i,
        {
            if seg_nonempty(&self.segments[i]) {
                proof {
                    let w = choose|v: PEP440Version| seg_contains(self.segments@[i as int], v);
                    assert(self.contains_spec(w));
                }
                return false;
            }
            i = i + 1;
        }
        proof {
            assert forall|v: PEP440Version| !self.contains_spec(v) by {
                if self.contains_spec(v) {
                    let j = choose|j: int|
                        0 <= j < self.segments@.len() && seg_contains(self.segments@[j], v);
                    assert(!seg_contains(self.segments@[j], v));
                }
            }
        }
        true
    }

    /// The greatest lower bound of the set, or the zero version for the
    /// empty set.
    pub fn lowest_version(&self) -> (r: PEP440Version)
        requires
            self.wf(),
        ensures
            forall|v: PEP440Version| self.contains_spec(v) ==> key_le(r, v),
            self.segments@.len() > 0 ==> r == self.segments@[0].lo,
            self.segments@.len() == 0 ==> r == PEP440Version::new_spec(0, 0, 0),
    {
        if self.segments.len() == 0 {
            PEP440Version::zero()
        } else {
            let r = self.segments[0].lo;
            proof {
                let ss = self.segments@;
                assert forall|v: PEP440Version| self.contains_spec(v) implies key_le(r, v) by {
                    let j = choose|j: int| 0 <= j < ss.len() && seg_contains(ss[j], v);
                    lemma_chain_lo_monotone(ss, 0, j);
                    lemma_pos_order(
                        ss[0].lo,
                        lo_eps(ss[0].lo_inclusive),
                        ss[j].lo,
                        lo_eps(ss[j].lo_inclusive),
                        v,
                        0,
                    );
                }
            }
            r
        }
    }
}

/// Lower bounds do not decrease along a well-formed chain.
proof fn lemma_chain_lo_monotone(ss: Seq<Segment>, i: int, j: int)
    requires
        chain_wf(ss),
        0 <= i <= j < ss.len(),
    ensures
        pos_le(ss[i].lo, lo_eps(ss[i].lo_inclusive), ss[j].lo, lo_eps(ss[j].lo_inclusive)),
    decreases j - i,
{
    if i < j {
        lemma_chain_lo_monotone(ss, i, j - 1);
        assert(seg_gap(ss[j - 1], ss[j]));
        assert(seg_wf(ss[j - 1]));
        match ss[j - 1].hi {
            Some((h, he)) => {
                lemma_pos_order(
                    ss[i].lo,
                    lo_eps(ss[i].lo_inclusive),
                    ss[j - 1].lo,
                    lo_eps(ss[j - 1].lo_inclusive),
                    h,
                    hi_eps(he),
                );
                lemma_pos_order(
                    ss[i].lo,
                    lo_eps(ss[i].lo_inclusive),
                    h,
                    hi_eps(he),
                    ss[j].lo,
                    lo_eps(ss[j].lo_inclusive),
                );
            },
            None => {},
        }
    }
}

/// Membership in a range depends only on a version's precedence key:
/// order-equivalent versions are in the same ranges.
pub proof fn lemma_contains_key_eq(r: VersionRange, a: PEP440Version, b: PEP440Version)
    requires
        key_eq(a, b),
    ensures
        r.contains_spec(a) == r.contains_spec(b),
{
    assert forall|i: int|
        0 <= i < r.segments@.len() implies seg_contains(#[trigger] r.segments@[i], a)
        == seg_contains(r.segments@[i], b) by {}
    if r.contains_spec(a) {
        let i = choose|i: int| 0 <= i < r.segments@.len() && seg_contains(r.segments@[i], a);
        assert(seg_contains(r.segments@[i], b));
    }
    if r.contains_spec(b) {
        let i = choose|i: int| 0 <= i < r.segments@.len() && seg_contains(r.segments@[i], b);
        assert(seg_contains(r.segments@[i], a));
    }
}

/// Two ranges that hold the same versions.
pub open spec fn same_versions(a: VersionRange, b: VersionRange) -> bool {
    forall|v: PEP440Version| a.contains_spec(v) == b.contains_spec(v)
}

/// Union is commutative: the union of `a` and `b` holds the same versions
/// as the union of `b` and `a`.
pub proof fn lemma_union_commutative(
    a: VersionRange,
    b: VersionRange,
    ab: VersionRange,
    ba: VersionRange,
)
    requires
        forall|v: PEP440Version|
            ab.contains_spec(v) == (a.contains_spec(v) || b.contains_spec(v)),
        forall|v: PEP440Version|
            ba.contains_spec(v) == (b.contains_spec(v) || a.contains_spec(v)),
    ensures
        same_versions(ab, ba),
{
}

/// Union is associative: grouping does not change the versions held.
pub proof fn lemma_union_associative(
    ab: VersionRange,
    bc: VersionRange,
    a: VersionRange,
    b: VersionRange,
    c: VersionRange,
    ab_c: VersionRange,
    a_bc: VersionRange,
)
    requires
        forall|v: PEP440Version|
            ab.contains_spec(v) == (a.contains_spec(v) || b.contains_spec(v)),
        forall|v: PEP440Version|
            bc.contains_spec(v) == (b.contains_spec(v) || c.contains_spec(v)),
        forall|v: PEP440Version|
            ab_c.contains_spec(v) == (ab.contains_spec(v) || c.contains_spec(v)),
        forall|v: PEP440Version|
            a_bc.contains_spec(v) == (a.contains_spec(v) || bc.contains_spec(v)),
    ensures
        same_versions(ab_c, a_bc),
{
}

/// Intersection is commutative.
pub proof fn lemma_intersection_commutative(
    a: VersionRange,
    b: VersionRange,
    ab: VersionRange,
    ba: VersionRange,
)
    requires
        forall|v: PEP440Version|
            ab.contains_spec(v) == (a.contains_spec(v) && b.contains_spec(v)),
        forall|v: PEP440Version|
            ba.contains_spec(v) == (b.contains_spec(v) && a.contains_spec(v)),
    ensures
        same_versions(ab, ba),
{
}

/// Intersection is associative.
pub proof fn lemma_intersection_associative(
    ab: VersionRange,
    bc: VersionRange,
    a: VersionRange,
    b: VersionRange,
    c: VersionRange,
    ab_c: VersionRange,
    a_bc: VersionRange,
)
    requires
        forall|v: PEP440Version|
            ab.contains_spec(v) == (a.contains_spec(v) && b.contains_spec(v)),
        forall|v: PEP440Version|
            bc.contains_spec(v) == (b.contains_spec(v) && c.contains_spec(v)),
        forall|v: PEP440Version|
            ab_c.contains_spec(v) == (ab.contains_spec(v) && c.contains_spec(v)),
        forall|v: PEP440Version|
            a_bc.contains_spec(v) == (a.contains_spec(v) && bc.contains_spec(v)),
    ensures
        same_versions(ab_c, a_bc),
{
}

/// Taking the complement twice gives back the versions one started with.
pub proof fn lemma_double_negation(r: VersionRange, n1: VersionRange, n2: VersionRange)
    requires
        forall|v: PEP440Version| n1.contains_spec(v) == !r.contains_spec(v),
        forall|v: PEP440Version| n2.contains_spec(v) == !n1.contains_spec(v),
    ensures
        same_versions(n2, r),
{
}


fn seg_gap_exec(a: &Segment, b: &Segment) -> (r: bool)
    ensures
        r == seg_gap(*a, *b),
{
    match &a.hi {
        None => false,
        Some((h, hinc)) => pos_lt_exec(
            h,
            hi_eps_exec(*hinc),
            &b.lo,
            lo_eps_exec(b.lo_inclusive),
        ),
    }
}

impl VersionRange {
    /// Check the representation invariant at run time.
    pub fn check_wf(&self) -> (r: bool)
        ensures
            r == self.wf(),
    {
        let n = self.segments.len();
        let mut i: usize = 0;
        while i < n
            invariant
                n == self.segments@.len(),
                0 <= i <= n,
                forall|j: int| 0 <= j < i ==> seg_wf(#[trigger] self.segments@[j]),
                forall|j: int| 0 <= j < i ==> seg_has_version(#[trigger] self.segments@[j]),
                forall|j: int|
                    0 <= j < i && j + 1 < n ==> seg_gap(
                        #[trigger] self.segments@[j],
                        self.segments@[j + 1],
                    ),
            decreases n - i,
        {
            if !seg_wf_exec(&self.segments[i]) {
                return false;
            }
            if !seg_nonempty(&self.segments[i]) {
                return false;
            }
            if i + 1 < n {
                if !seg_gap_exec(&self.segments[i], &self.segments[i + 1]) {
                    return false;
                }
            }
            i = i + 1;
        }
        true
    }
}

} // verus!
