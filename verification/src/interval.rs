//! Interval tiers: contiguous labelled time spans.

use crate::decimal::{lemma_le_total, lemma_le_trans, Decimal, MAX_SCALE};
use crate::warning::Warning;
use vstd::prelude::*;

verus! {

/// The mathematical content of an interval: its two bounds and the label
/// text.
pub ghost struct IntervalView {
    pub xmin: Decimal,
    pub xmax: Decimal,
    pub text: Seq<char>,
}

/// A labelled time span.
#[derive(Debug)]
pub struct Interval {
    pub xmin: Decimal,
    pub xmax: Decimal,
    pub text: String,
}

impl View for Interval {
    type V = IntervalView;

    open spec fn view(&self) -> IntervalView {
        IntervalView { xmin: self.xmin, xmax: self.xmax, text: self.text@ }
    }
}

impl Clone for Interval {
    fn clone(&self) -> (r: Self)
        ensures
            r@ == self@,
    {
        Interval { xmin: self.xmin, xmax: self.xmax, text: self.text.clone() }
    }
}

impl Interval {
    pub fn new(xmin: Decimal, xmax: Decimal, text: String) -> (r: Interval)
        ensures
            r@.xmin == xmin,
            r@.xmax == xmax,
            r@.text == text@,
    {
        Interval { xmin, xmax, text }
    }

    /// The exact span `xmax - xmin`, or `None` when it cannot be held at
    /// the bounds' common scale.
    pub fn get_duration(&self) -> (r: Option<Decimal>)
        requires
            self.xmin.scale <= MAX_SCALE,
            self.xmax.scale <= MAX_SCALE,
        ensures
            r is Some <==> crate::decimal::int_abs(
                crate::decimal::scaled_difference(self.xmin, self.xmax),
            ) <= u64::MAX,
            r matches Some(d) ==> d.wf() && crate::decimal::denotes_difference(
                d,
                self.xmin,
                self.xmax,
            ),
    {
        Decimal::difference(&self.xmin, &self.xmax)
    }

    /// The exact midpoint `(xmin + xmax) / 2`, or `None` when it cannot be
    /// held: the extra fraction digit leaves no room, or the numerator
    /// overflows.
    pub fn get_midpoint(&self) -> (r: Option<Decimal>)
        requires
            self.xmin.scale <= MAX_SCALE,
            self.xmax.scale <= MAX_SCALE,
        ensures
            r is Some <==> (crate::decimal::common_hi_scale(self.xmin, self.xmax) < MAX_SCALE
                && crate::decimal::int_abs(crate::decimal::scaled_sum(self.xmin, self.xmax)) * 5
                <= u64::MAX),
            r matches Some(d) ==> d.wf() && crate::decimal::denotes_midpoint(
                d,
                self.xmin,
                self.xmax,
            ),
    {
        Decimal::midpoint(&self.xmin, &self.xmax)
    }

    pub fn xmin(&self) -> (r: &Decimal)
        ensures
            *r == self.xmin,
    {
        &self.xmin
    }

    pub fn xmax(&self) -> (r: &Decimal)
        ensures
            *r == self.xmax,
    {
        &self.xmax
    }

    pub fn text(&self) -> (r: &String)
        ensures
            r@ == self@.text,
    {
        &self.text
    }

    pub fn set_xmin(&mut self, xmin: Decimal)
        ensures
            final(self)@ == (IntervalView { xmin, ..old(self)@ }),
    {
        self.xmin = xmin;
    }

    pub fn set_xmax(&mut self, xmax: Decimal)
        ensures
            final(self)@ == (IntervalView { xmax, ..old(self)@ }),
    {
        self.xmax = xmax;
    }

    pub fn set_text(&mut self, text: String)
        ensures
            final(self)@ == (IntervalView { text: text@, ..old(self)@ }),
    {
        self.text = text;
    }
}

impl Interval {
    /// The descriptive multi-line text for this interval.
    pub fn to_text(&self) -> (r: String)
        ensures
            r@ == "Interval\n    xmin = "@ + self.xmin.spec_text() + "\n    xmax = "@
                + self.xmax.spec_text() + "\n    text = \""@ + self@.text + "\"\n"@,
    {
        let mut r: String = "Interval\n    xmin = ".to_owned();
        r.append(self.xmin.to_text().as_str());
        r.append("\n    xmax = ");
        r.append(self.xmax.to_text().as_str());
        r.append("\n    text = \"");
        r.append(self.text.as_str());
        r.append("\"\n");
        r
    }
}

/// The views of a sequence of intervals.
pub open spec fn ivals(s: Seq<Interval>) -> Seq<IntervalView> {
    s.map_values(|iv: Interval| iv@)
}

/// Order of intervals by their start.
pub open spec fn ival_le(a: IntervalView, b: IntervalView) -> bool {
    a.xmin.spec_le(b.xmin)
}

/// Sorted by start, every pair.
pub open spec fn sorted_by_start(s: Seq<IntervalView>) -> bool {
    forall|i: int, j: int| 0 <= i < j < s.len() ==> ival_le(#[trigger] s[i], #[trigger] s[j])
}

/// Inserts `x` into `s` after every element whose start does not exceed
/// `x`'s: the position a stable sort gives an element arriving last.
pub open spec fn insert_by_start(s: Seq<IntervalView>, x: IntervalView) -> Seq<IntervalView>
    decreases s.len(),
{
    if s.len() > 0 && x.xmin.spec_lt(s.last().xmin) {
        insert_by_start(s.drop_last(), x).push(s.last())
    } else {
        s.push(x)
    }
}

/// The stable sort of intervals by their start.
pub open spec fn sort_by_start(s: Seq<IntervalView>) -> Seq<IntervalView>
    decreases s.len(),
{
    if s.len() == 0 {
        Seq::empty()
    } else {
        insert_by_start(sort_by_start(s.drop_last()), s.last())
    }
}

pub proof fn lemma_insert_by_start_props(s: Seq<IntervalView>, x: IntervalView)
    requires
        sorted_by_start(s),
    ensures
        sorted_by_start(insert_by_start(s, x)),
        insert_by_start(s, x).to_multiset() == s.to_multiset().insert(x),
        insert_by_start(s, x).len() == s.len() + 1,
    decreases s.len(),
{
    broadcast use vstd::seq_lib::group_to_multiset_ensures;

    if s.len() > 0 && x.xmin.spec_lt(s.last().xmin) {
        assert(sorted_by_start(s.drop_last()));
        lemma_insert_by_start_props(s.drop_last(), x);
        let t = insert_by_start(s.drop_last(), x);
        // every element of `t` is bounded by `s.last()`
        assert forall|i: int| 0 <= i < t.len() implies ival_le(t[i], s.last()) by {
            lemma_le_total(x.xmin, s.last().xmin);
            lemma_insert_membership(s.drop_last(), x, i);
            if t[i] == x {
            } else {
                let j = choose|j: int| 0 <= j < s.len() - 1 && s.drop_last()[j] == t[i];
                assert(ival_le(s[j], s.last()));
            }
        }
        assert(sorted_by_start(t.push(s.last()))) by {
            assert forall|i: int, j: int|
                0 <= i < j < t.push(s.last()).len() implies ival_le(
                #[trigger] t.push(s.last())[i],
                #[trigger] t.push(s.last())[j],
            ) by {
                if j < t.len() {
                    assert(ival_le(t[i], t[j]));
                }
            }
        }
        assert(s.drop_last().to_multiset().insert(s.last()) == s.to_multiset()) by {
            assert(s.drop_last().push(s.last()) =~= s);
        }
        assert(t.push(s.last()).to_multiset() == t.to_multiset().insert(s.last()));
        assert(s.to_multiset().insert(x) == s.drop_last().to_multiset().insert(s.last()).insert(x));
        assert(s.drop_last().to_multiset().insert(s.last()).insert(x) == s.drop_last().to_multiset()
            .insert(x).insert(s.last()));
    } else {
        assert(insert_by_start(s, x) == s.push(x));
        if s.len() > 0 {
            // the new last element is above every other
            assert forall|i: int| 0 <= i < s.len() implies ival_le(s[i], x) by {
                assert(ival_le(s[i], s.last()));
                assert(s.last().xmin.spec_le(x.xmin));
                lemma_le_trans(s[i].xmin, s.last().xmin, x.xmin);
            }
        }
        assert(sorted_by_start(s.push(x))) by {
            assert forall|i: int, j: int|
                0 <= i < j < s.push(x).len() implies ival_le(
                #[trigger] s.push(x)[i],
                #[trigger] s.push(x)[j],
            ) by {
                if j < s.len() {
                    assert(ival_le(s[i], s[j]));
                }
            }
        }
    }
}

/// Every element of an insertion result is the inserted element or one of
/// the sequence's own elements.
proof fn lemma_insert_membership(s: Seq<IntervalView>, x: IntervalView, i: int)
    requires
        0 <= i < insert_by_start(s, x).len(),
    ensures
        insert_by_start(s, x)[i] == x || exists|j: int|
            0 <= j < s.len() && s[j] == insert_by_start(s, x)[i],
    decreases s.len(),
{
    if s.len() > 0 && x.xmin.spec_lt(s.last().xmin) {
        let t = insert_by_start(s.drop_last(), x);
        if i < t.len() {
            lemma_insert_membership(s.drop_last(), x, i);
            if t[i] != x {
                let j = choose|j: int| 0 <= j < s.drop_last().len() && s.drop_last()[j] == t[i];
                assert(s[j] == t[i]);
            }
        } else {
            assert(insert_by_start(s, x)[i] == s.last());
            assert(s[s.len() - 1] == s.last());
        }
    } else {
        if i < s.len() {
        } else {
            assert(insert_by_start(s, x)[i] == x);
        }
    }
}

/// The stable sort orders its input and keeps exactly its elements.
pub proof fn lemma_sort_by_start_props(s: Seq<IntervalView>)
    ensures
        sorted_by_start(sort_by_start(s)),
        sort_by_start(s).to_multiset() == s.to_multiset(),
        sort_by_start(s).len() == s.len(),
    decreases s.len(),
{
    broadcast use vstd::seq_lib::group_to_multiset_ensures;

    if s.len() > 0 {
        lemma_sort_by_start_props(s.drop_last());
        lemma_insert_by_start_props(sort_by_start(s.drop_last()), s.last());
        assert(s.drop_last().push(s.last()) =~= s);
    }
}

/// Sorting an already ordered sequence changes nothing.
pub proof fn lemma_sort_of_sorted(s: Seq<IntervalView>)
    requires
        sorted_by_start(s),
    ensures
        sort_by_start(s) == s,
    decreases s.len(),
{
    if s.len() > 0 {
        assert(sorted_by_start(s.drop_last()));
        lemma_sort_of_sorted(s.drop_last());
        let p = s.drop_last();
        if p.len() > 0 {
            assert(ival_le(s[p.len() - 1], s[s.len() - 1]));
            assert(!s.last().xmin.spec_lt(p.last().xmin));
        }
        assert(insert_by_start(p, s.last()) == p.push(s.last()));
        assert(p.push(s.last()) =~= s);
    } else {
        assert(sort_by_start(s) =~= s);
    }
}

/// Where a stable sort puts a newly arrived element: before the elements it
/// strictly precedes, after everything else.
proof fn lemma_insert_position(s: Seq<IntervalView>, x: IntervalView, p: int)
    requires
        0 <= p <= s.len(),
        forall|k: int| p <= k < s.len() ==> x.xmin.spec_lt((#[trigger] s[k]).xmin),
        p > 0 ==> !x.xmin.spec_lt(s[p - 1].xmin),
    ensures
        insert_by_start(s, x) == s.subrange(0, p) + seq![x] + s.subrange(p, s.len() as int),
    decreases s.len(),
{
    if s.len() > p {
        assert(x.xmin.spec_lt(s.last().xmin));
        lemma_insert_position(s.drop_last(), x, p);
        assert(s.drop_last().subrange(0, p) =~= s.subrange(0, p));
        assert(s.drop_last().subrange(p, s.len() - 1) =~= s.subrange(p, s.len() - 1));
        assert((s.subrange(0, p) + seq![x] + s.subrange(p, s.len() - 1)).push(s.last()) =~= s
            .subrange(0, p) + seq![x] + s.subrange(p, s.len() as int));
    } else {
        if s.len() > 0 {
            assert(!x.xmin.spec_lt(s.last().xmin));
        }
        assert(s.subrange(0, p) =~= s);
        assert(s.subrange(p, s.len() as int) =~= Seq::<IntervalView>::empty());
        assert(s.push(x) =~= s.subrange(0, p) + seq![x] + s.subrange(p, s.len() as int));
    }
}

/// Sorts intervals by their start with a stable insertion sort.
pub fn sort_intervals(v: &mut Vec<Interval>)
    ensures
        ivals(final(v)@) == sort_by_start(ivals(old(v)@)),
{
    let ghost orig = ivals(old(v)@);
    let n = v.len();
    if n <= 1 {
        proof {
            lemma_sort_of_sorted(orig);
        }
        return ;
    }
    let mut i: usize = 1;
    proof {
        assert(ivals(v@).subrange(0, 1) =~= sort_by_start(orig.subrange(0, 1))) by {
            assert(orig.subrange(0, 1).drop_last() =~= Seq::<IntervalView>::empty());
            assert(sort_by_start(orig.subrange(0, 1)) == insert_by_start(
                sort_by_start(Seq::empty()),
                orig.subrange(0, 1).last(),
            ));
            assert(sort_by_start(Seq::<IntervalView>::empty()) =~= Seq::<IntervalView>::empty());
            assert(orig.subrange(0, 1).last() == orig[0]);
            assert(insert_by_start(Seq::empty(), orig[0]) =~= Seq::empty().push(orig[0]));
        }
        assert(ivals(v@).subrange(1, n as int) =~= orig.subrange(1, n as int));
    }
    while i < n
        invariant
            n == v.len(),
            orig.len() == n,
            1 <= i <= n,
            ivals(v@).subrange(0, i as int) == sort_by_start(orig.subrange(0, i as int)),
            ivals(v@).subrange(i as int, n as int) == orig.subrange(i as int, n as int),
        decreases n - i,
    {
        let ghost prefix = ivals(v@).subrange(0, i as int);
        let ghost x = v@[i as int]@;
        proof {
            lemma_sort_by_start_props(orig.subrange(0, i as int));
            assert(sorted_by_start(prefix));
            assert(orig.len() == n);
            assert(x == ivals(v@)[i as int]);
            assert(ivals(v@).subrange(i as int, n as int)[0] == ivals(v@)[i as int]);
            assert(orig.subrange(i as int, n as int)[0] == orig[i as int]);
            assert(x == orig[i as int]);
        }
        let mut j: usize = i;
        while j > 0 && v[i].xmin.lt(&v[j - 1].xmin)
            invariant
                n == v.len(),
                orig.len() == n,
                0 < i < n,
                0 <= j <= i,
                sorted_by_start(prefix),
                ivals(v@).subrange(0, i as int) == prefix,
                x == v@[i as int]@,
                forall|k: int| j <= k < i ==> x.xmin.spec_lt((#[trigger] prefix[k]).xmin),
            decreases j,
        {
            proof {
                assert(prefix[j - 1] == ivals(v@).subrange(0, i as int)[j - 1]);
                assert(prefix[j - 1].xmin == v@[j - 1].xmin);
            }
            j = j - 1;
        }
        proof {
            if j > 0 {
                assert(prefix[j - 1].xmin == v@[j - 1].xmin);
            }
            lemma_insert_position(prefix, x, j as int);
        }
        // move the element at `i` into position `j`, shifting the ones
        // between up by one
        let ghost before = v@;
        let moved = v.remove(i);
        v.insert(j, moved);
        proof {
            assert(moved@ == x);
            assert(v@ =~= before.subrange(0, j as int) + seq![moved] + before.subrange(
                j as int,
                i as int,
            ) + before.subrange(i + 1, n as int));
            assert forall|k: int| 0 <= k < n implies #[trigger] ivals(v@)[k] == v@[k]@ by {}
            assert(ivals(v@).subrange(0, i + 1) =~= prefix.subrange(0, j as int) + seq![x]
                + prefix.subrange(j as int, prefix.len() as int)) by {
                assert(forall|k: int| 0 <= k < i ==> #[trigger] prefix[k] == ivals(before)[k]);
                assert(forall|k: int| 0 <= k < i ==> #[trigger] prefix[k] == before[k]@);
            }
            assert(ivals(v@).subrange(0, i + 1) == insert_by_start(prefix, x));
            assert(prefix == sort_by_start(orig.subrange(0, i as int)));
            assert(orig.subrange(0, i + 1).drop_last() =~= orig.subrange(0, i as int));
            assert(orig.subrange(0, i + 1).last() == orig[i as int]);
            assert(sort_by_start(orig.subrange(0, i + 1)) == insert_by_start(prefix, x));
            assert(ivals(v@).subrange(i + 1, n as int) =~= orig.subrange(i + 1, n as int)) by {
                assert(forall|k: int| i + 1 <= k < n ==> v@[k] == before[k]);
                assert(forall|k: int| i <= k < n ==> #[trigger] orig[k] == ivals(before).subrange(
                    i as int,
                    n as int,
                )[k - i]);
                assert(forall|k: int| i <= k < n ==> orig[k] == before[k]@);
            }
        }
        i = i + 1;
    }
    proof {
        assert(ivals(v@).subrange(0, n as int) =~= ivals(v@));
        assert(orig.subrange(0, n as int) =~= orig);
    }
}

/// Boundary repair preferring earlier intervals: every interval after the
/// first gets its start overwritten with its predecessor's end.
pub open spec fn repair_first(s: Seq<IntervalView>) -> Seq<IntervalView> {
    Seq::new(
        s.len(),
        |i: int|
            if i == 0 {
                s[0]
            } else {
                IntervalView { xmin: s[i - 1].xmax, ..s[i] }
            },
    )
}

/// Boundary repair preferring later intervals: every interval before the
/// last gets its end overwritten with its successor's start.
pub open spec fn repair_last(s: Seq<IntervalView>) -> Seq<IntervalView> {
    Seq::new(
        s.len(),
        |i: int|
            if i == s.len() - 1 {
                s[i]
            } else {
                IntervalView { xmax: s[i + 1].xmin, ..s[i] }
            },
    )
}

/// What boundary repair does to a tier's intervals: nothing under two
/// intervals, else sort and sweep.
pub open spec fn spec_fix_boundaries(s: Seq<IntervalView>, prefer_first: bool) -> Seq<
    IntervalView,
> {
    if s.len() < 2 {
        s
    } else if prefer_first {
        repair_first(sort_by_start(s))
    } else {
        repair_last(sort_by_start(s))
    }
}

/// Inserts a filler interval into every gap between adjacent intervals.
pub open spec fn fill_between(s: Seq<IntervalView>, filler: Seq<char>) -> Seq<IntervalView>
    decreases s.len(),
{
    if s.len() <= 1 {
        s
    } else if s[0].xmax.spec_lt(s[1].xmin) {
        seq![s[0], IntervalView { xmin: s[0].xmax, xmax: s[1].xmin, text: filler }] + fill_between(
            s.subrange(1, s.len() as int),
            filler,
        )
    } else {
        seq![s[0]] + fill_between(s.subrange(1, s.len() as int), filler)
    }
}

/// What gap filling does to a tier: sort, close a leading gap against the
/// declared start and a trailing gap against the declared end, then fill
/// every interior gap.  An empty tier stays empty.
pub open spec fn spec_fill_gaps(
    xmin: Decimal,
    xmax: Decimal,
    s: Seq<IntervalView>,
    filler: Seq<char>,
) -> Seq<IntervalView> {
    if s.len() == 0 {
        s
    } else {
        let u = sort_by_start(s);
        let lead = if xmin.spec_lt(u[0].xmin) {
            seq![IntervalView { xmin, xmax: u[0].xmin, text: filler }] + u
        } else {
            u
        };
        let full = if lead.last().xmax.spec_lt(xmax) {
            lead.push(IntervalView { xmin: lead.last().xmax, xmax, text: filler })
        } else {
            lead
        };
        fill_between(full, filler)
    }
}

/// The adjacent index pairs whose boundaries do not meet exactly, scanning
/// from position `i`.
pub open spec fn defect_pairs_from(s: Seq<IntervalView>, i: nat) -> Seq<(u64, u64)>
    decreases s.len() - i,
{
    if i + 1 >= s.len() {
        Seq::empty()
    } else if !s[i as int].xmax.same_value(s[i as int + 1].xmin) {
        seq![(i as u64, (i + 1) as u64)] + defect_pairs_from(s, i + 1)
    } else {
        defect_pairs_from(s, i + 1)
    }
}

/// The adjacent index pairs whose boundaries do not meet exactly.
pub open spec fn defect_pairs(s: Seq<IntervalView>) -> Seq<(u64, u64)> {
    defect_pairs_from(s, 0)
}

/// An interval tier: a name, declared bounds, and the owned intervals.
#[derive(Debug)]
pub struct Tier {
    pub name: String,
    pub xmin: Decimal,
    pub xmax: Decimal,
    pub intervals: Vec<Interval>,
}

impl Clone for Tier {
    fn clone(&self) -> (r: Self)
        ensures
            r.name@ == self.name@,
            r.xmin == self.xmin,
            r.xmax == self.xmax,
            ivals(r.intervals@) == ivals(self.intervals@),
    {
        let mut intervals: Vec<Interval> = Vec::new();
        let mut i: usize = 0;
        while i < self.intervals.len()
            invariant
                i <= self.intervals.len(),
                intervals@.len() == i,
                forall|k: int| 0 <= k < i ==> (#[trigger] intervals@[k])@ == self.intervals@[k]@,
            decreases self.intervals.len() - i,
        {
            intervals.push(self.intervals[i].clone());
            i = i + 1;
        }
        proof {
            assert(ivals(intervals@) =~= ivals(self.intervals@));
        }
        Tier { name: self.name.clone(), xmin: self.xmin, xmax: self.xmax, intervals }
    }
}

/// The mathematical content of an interval tier.
pub ghost struct TierView {
    pub name: Seq<char>,
    pub xmin: Decimal,
    pub xmax: Decimal,
    pub intervals: Seq<IntervalView>,
}

impl View for Tier {
    type V = TierView;

    open spec fn view(&self) -> TierView {
        TierView {
            name: self.name@,
            xmin: self.xmin,
            xmax: self.xmax,
            intervals: ivals(self.intervals@),
        }
    }
}

impl Tier {
    pub fn new(name: String, xmin: Decimal, xmax: Decimal, intervals: Vec<Interval>) -> (r: Tier)
        ensures
            r.name@ == name@,
            r.xmin == xmin,
            r.xmax == xmax,
            r.intervals@ == intervals@,
    {
        Tier { name, xmin, xmax, intervals }
    }

    pub fn name(&self) -> (r: &String)
        ensures
            r@ == self.name@,
    {
        &self.name
    }

    pub fn set_name(&mut self, name: String)
        ensures
            final(self).name@ == name@,
            final(self).xmin == old(self).xmin,
            final(self).xmax == old(self).xmax,
            final(self).intervals@ == old(self).intervals@,
    {
        self.name = name;
    }

    pub fn xmin(&self) -> (r: &Decimal)
        ensures
            *r == self.xmin,
    {
        &self.xmin
    }

    pub fn xmax(&self) -> (r: &Decimal)
        ensures
            *r == self.xmax,
    {
        &self.xmax
    }

    pub fn intervals(&self) -> (r: &Vec<Interval>)
        ensures
            r@ == self.intervals@,
    {
        &self.intervals
    }

    /// The number of intervals.
    pub fn get_size(&self) -> (r: usize)
        ensures
            r == self.intervals@.len(),
    {
        self.intervals.len()
    }

    /// Sets the declared start.  When `warn` is set and some interval begins
    /// before the new start, an advisory is returned.
    pub fn set_xmin(&mut self, xmin: Decimal, warn: bool) -> (w: Vec<Warning>)
        ensures
            final(self).xmin == xmin,
            final(self).name@ == old(self).name@,
            final(self).xmax == old(self).xmax,
            final(self).intervals@ == old(self).intervals@,
            !warn ==> w@.len() == 0,
            warn ==> ((w@.len() > 0) <==> exists|k: int|
                0 <= k < old(self).intervals@.len() && (#[trigger] old(
                    self,
                ).intervals@[k])@.xmin.spec_lt(xmin)),
    {
        let mut w: Vec<Warning> = Vec::new();
        if warn {
            if let Some(m) = min_start(&self.intervals) {
                if m.lt(&xmin) {
                    w.push(Warning::BelowStart { tier: self.name.clone(), value: m, bound: xmin });
                    proof {
                        let k = choose|k: int|
                            0 <= k < self.intervals@.len() && (#[trigger] self.intervals@[
                            k]).xmin == m;
                        assert(self.intervals@[k]@.xmin.spec_lt(xmin));
                    }
                } else {
                    proof {
                        assert forall|k: int| 0 <= k < self.intervals@.len() implies !(
                        #[trigger] self.intervals@[k])@.xmin.spec_lt(xmin) by {
                            lemma_le_trans(xmin, m, self.intervals@[k].xmin);
                        }
                    }
                }
            }
        }
        self.xmin = xmin;
        w
    }

    /// Sets the declared end.  When `warn` is set and some interval ends
    /// past the new end, an advisory is returned.
    pub fn set_xmax(&mut self, xmax: Decimal, warn: bool) -> (w: Vec<Warning>)
        ensures
            final(self).xmax == xmax,
            final(self).name@ == old(self).name@,
            final(self).xmin == old(self).xmin,
            final(self).intervals@ == old(self).intervals@,
            !warn ==> w@.len() == 0,
            warn ==> ((w@.len() > 0) <==> exists|k: int|
                0 <= k < old(self).intervals@.len() && xmax.spec_lt(
                    (#[trigger] old(self).intervals@[k])@.xmax,
                )),
    {
        let mut w: Vec<Warning> = Vec::new();
        if warn {
            if let Some(m) = max_end(&self.intervals) {
                if xmax.lt(&m) {
                    w.push(Warning::PastEnd { tier: self.name.clone(), value: m, bound: xmax });
                    proof {
                        let k = choose|k: int|
                            0 <= k < self.intervals@.len() && (#[trigger] self.intervals@[
                            k]).xmax == m;
                        assert(xmax.spec_lt(self.intervals@[k]@.xmax));
                    }
                } else {
                    proof {
                        assert forall|k: int| 0 <= k < self.intervals@.len() implies !xmax.spec_lt(
                            (#[trigger] self.intervals@[k])@.xmax,
                        ) by {
                            lemma_le_trans(self.intervals@[k].xmax, m, xmax);
                        }
                    }
                }
            }
        }
        self.xmax = xmax;
        w
    }

    /// Sorts the intervals by their start (stable).
    pub fn reorder(&mut self)
        ensures
            ivals(final(self).intervals@) == sort_by_start(ivals(old(self).intervals@)),
            final(self).name@ == old(self).name@,
            final(self).xmin == old(self).xmin,
            final(self).xmax == old(self).xmax,
    {
        sort_intervals(&mut self.intervals);
    }

    /// Appends one interval, then restores the order.  When `warn` is set
    /// and the interval begins before the tier's start, an advisory is
    /// returned.
    pub fn push_interval(&mut self, interval: Interval, warn: bool) -> (w: Vec<Warning>)
        ensures
            ivals(final(self).intervals@) == sort_by_start(
                ivals(old(self).intervals@).push(interval@),
            ),
            final(self).name@ == old(self).name@,
            final(self).xmin == old(self).xmin,
            final(self).xmax == old(self).xmax,
            !warn ==> w@.len() == 0,
            warn ==> ((w@.len() > 0) <==> interval@.xmin.spec_lt(old(self).xmin)),
    {
        let mut w: Vec<Warning> = Vec::new();
        if warn && interval.xmin.lt(&self.xmin) {
            w.push(
                Warning::BelowStart {
                    tier: self.name.clone(),
                    value: interval.xmin,
                    bound: self.xmin,
                },
            );
        }
        self.intervals.push(interval);
        proof {
            assert(ivals(self.intervals@) =~= ivals(old(self).intervals@).push(interval@));
        }
        sort_intervals(&mut self.intervals);
        w
    }

    /// Appends several intervals, then restores the order.  When `warn` is
    /// set, each interval outside the tier's bounds yields an advisory.
    pub fn push_intervals(&mut self, intervals: Vec<Interval>, warn: bool) -> (w: Vec<Warning>)
        ensures
            ivals(final(self).intervals@) == sort_by_start(
                ivals(old(self).intervals@) + ivals(intervals@),
            ),
            final(self).name@ == old(self).name@,
            final(self).xmin == old(self).xmin,
            final(self).xmax == old(self).xmax,
            !warn ==> w@.len() == 0,
            warn ==> ((w@.len() > 0) <==> exists|k: int|
                0 <= k < intervals@.len() && ((#[trigger] intervals@[k])@.xmin.spec_lt(
                    old(self).xmin,
                ) || old(self).xmax.spec_lt(intervals@[k]@.xmax))),
    {
        let mut w: Vec<Warning> = Vec::new();
        if warn {
            let mut k: usize = 0;
            while k < intervals.len()
                invariant
                    k <= intervals@.len(),
                    (w@.len() > 0) <==> exists|q: int|
                        0 <= q < k && ((#[trigger] intervals@[q])@.xmin.spec_lt(self.xmin)
                            || self.xmax.spec_lt(intervals@[q]@.xmax)),
                decreases intervals@.len() - k,
            {
                if intervals[k].xmin.lt(&self.xmin) {
                    w.push(
                        Warning::BelowStart {
                            tier: self.name.clone(),
                            value: intervals[k].xmin,
                            bound: self.xmin,
                        },
                    );
                }
                if self.xmax.lt(&intervals[k].xmax) {
                    w.push(
                        Warning::PastEnd {
                            tier: self.name.clone(),
                            value: intervals[k].xmax,
                            bound: self.xmax,
                        },
                    );
                }
                k = k + 1;
            }
        }
        let mut intervals = intervals;
        let ghost added = intervals@;
        self.intervals.append(&mut intervals);
        proof {
            assert(ivals(self.intervals@) =~= ivals(old(self).intervals@) + ivals(added));
        }
        sort_intervals(&mut self.intervals);
        w
    }

    /// Replaces the intervals verbatim, without reordering.  When `warn` is
    /// set, each interval outside the tier's bounds yields an advisory.
    pub fn set_intervals(&mut self, intervals: Vec<Interval>, warn: bool) -> (w: Vec<Warning>)
        ensures
            final(self).intervals@ == intervals@,
            final(self).name@ == old(self).name@,
            final(self).xmin == old(self).xmin,
            final(self).xmax == old(self).xmax,
            !warn ==> w@.len() == 0,
            warn ==> ((w@.len() > 0) <==> exists|k: int|
                0 <= k < intervals@.len() && ((#[trigger] intervals@[k])@.xmin.spec_lt(
                    old(self).xmin,
                ) || old(self).xmax.spec_lt(intervals@[k]@.xmax))),
    {
        let mut w: Vec<Warning> = Vec::new();
        if warn {
            let mut k: usize = 0;
            while k < intervals.len()
                invariant
                    k <= intervals@.len(),
                    (w@.len() > 0) <==> exists|q: int|
                        0 <= q < k && ((#[trigger] intervals@[q])@.xmin.spec_lt(self.xmin)
                            || self.xmax.spec_lt(intervals@[q]@.xmax)),
                decreases intervals@.len() - k,
            {
                if intervals[k].xmin.lt(&self.xmin) {
                    w.push(
                        Warning::BelowStart {
                            tier: self.name.clone(),
                            value: intervals[k].xmin,
                            bound: self.xmin,
                        },
                    );
                }
                if self.xmax.lt(&intervals[k].xmax) {
                    w.push(
                        Warning::PastEnd {
                            tier: self.name.clone(),
                            value: intervals[k].xmax,
                            bound: self.xmax,
                        },
                    );
                }
                k = k + 1;
            }
        }
        self.intervals = intervals;
        w
    }
}

impl Tier {
    /// Reports each adjacent pair whose boundaries do not meet exactly, in
    /// index order; `None` when there is no such pair.
    pub fn check_overlaps(&self) -> (r: Option<Vec<(u64, u64)>>)
        ensures
            match r {
                Some(v) => v@ == defect_pairs(ivals(self.intervals@)) && v@.len() > 0,
                None => defect_pairs(ivals(self.intervals@)).len() == 0,
            },
    {
        let ghost s = ivals(self.intervals@);
        let n = self.intervals.len();
        if n == 0 {
            return None;
        }
        let mut out: Vec<(u64, u64)> = Vec::new();
        let mut i: usize = 0;
        while i + 1 < n
            invariant
                n == self.intervals@.len(),
                n >= 1,
                s == ivals(self.intervals@),
                i <= n - 1,
                out@ + defect_pairs_from(s, i as nat) == defect_pairs(s),
            decreases n - i,
        {
            let ghost out0 = out@;
            if !self.intervals[i].xmax.eq_value(&self.intervals[i + 1].xmin) {
                out.push((i as u64, (i + 1) as u64));
                proof {
                    assert(!s[i as int].xmax.same_value(s[i as int + 1].xmin));
                    assert(out0 + (seq![(i as u64, (i + 1) as u64)] + defect_pairs_from(
                        s,
                        i as nat + 1,
                    )) =~= out@ + defect_pairs_from(s, i as nat + 1));
                }
            } else {
                proof {
                    assert(s[i as int].xmax.same_value(s[i as int + 1].xmin));
                }
            }
            i = i + 1;
        }
        proof {
            assert(defect_pairs_from(s, i as nat) =~= Seq::<(u64, u64)>::empty());
            assert(out@ + Seq::<(u64, u64)>::empty() =~= out@);
        }
        if out.len() == 0 {
            None
        } else {
            Some(out)
        }
    }

    /// Repairs the boundaries between adjacent intervals.  With
    /// `prefer_first` every interval after the first is pulled to its
    /// predecessor's end; otherwise every interval before the last is pulled
    /// to its successor's start.  A tier with under two intervals is left
    /// alone.
    pub fn fix_boundaries(&mut self, prefer_first: bool)
        ensures
            ivals(final(self).intervals@) == spec_fix_boundaries(
                ivals(old(self).intervals@),
                prefer_first,
            ),
            final(self).name@ == old(self).name@,
            final(self).xmin == old(self).xmin,
            final(self).xmax == old(self).xmax,
    {
        let n = self.intervals.len();
        if n < 2 {
            return ;
        }
        sort_intervals(&mut self.intervals);
        proof {
            lemma_sort_by_start_props(ivals(old(self).intervals@));
        }
        let ghost u = ivals(self.intervals@);
        if prefer_first {
            let mut i: usize = 1;
            while i < n
                invariant
                    n == self.intervals@.len(),
                    u.len() == n,
                    self.name@ == old(self).name@,
                    self.xmin == old(self).xmin,
                    self.xmax == old(self).xmax,
                    1 <= i <= n,
                    forall|k: int| 0 <= k < i ==> #[trigger] ivals(self.intervals@)[k]
                        == repair_first(u)[k],
                    forall|k: int| i <= k < n ==> #[trigger] ivals(self.intervals@)[k] == u[k],
                decreases n - i,
            {
                let start = self.intervals[i - 1].xmax;
                let text = self.intervals[i].text.clone();
                let xmax = self.intervals[i].xmax;
                proof {
                    assert(ivals(self.intervals@)[i - 1] == self.intervals@[i - 1]@);
                    assert(ivals(self.intervals@)[i as int] == self.intervals@[i as int]@);
                    assert(ivals(self.intervals@)[i - 1].xmax == u[i - 1].xmax);
                    assert(text@ == u[i as int].text && xmax == u[i as int].xmax);
                }
                let ghost before = self.intervals@;
                self.intervals.set(i, Interval { xmin: start, xmax, text });
                proof {
                    assert(self.intervals@ == before.update(i as int, Interval { xmin: start, xmax, text }));
                    assert(ivals(self.intervals@)[i as int] == repair_first(u)[i as int]);
                    assert(forall|k: int| 0 <= k < n && k != i ==> #[trigger] ivals(
                        self.intervals@,
                    )[k] == ivals(before)[k]);
                }
                i = i + 1;
            }
            proof {
                assert(ivals(self.intervals@) =~= repair_first(u));
            }
        } else {
            let mut i: usize = 0;
            while i < n - 1
                invariant
                    n == self.intervals@.len(),
                    u.len() == n,
                    self.name@ == old(self).name@,
                    self.xmin == old(self).xmin,
                    self.xmax == old(self).xmax,
                    0 <= i <= n - 1,
                    forall|k: int| 0 <= k < i ==> #[trigger] ivals(self.intervals@)[k]
                        == repair_last(u)[k],
                    forall|k: int| i <= k < n ==> #[trigger] ivals(self.intervals@)[k] == u[k],
                decreases n - i,
            {
                let end = self.intervals[i + 1].xmin;
                let text = self.intervals[i].text.clone();
                let xmin = self.intervals[i].xmin;
                proof {
                    assert(ivals(self.intervals@)[i as int] == self.intervals@[i as int]@);
                    assert(ivals(self.intervals@)[i as int + 1] == self.intervals@[i as int + 1]@);
                    assert(text@ == u[i as int].text && xmin == u[i as int].xmin);
                    assert(end == u[i as int + 1].xmin);
                }
                let ghost before = self.intervals@;
                self.intervals.set(i, Interval { xmin, xmax: end, text });
                proof {
                    assert(self.intervals@ == before.update(i as int, Interval { xmin, xmax: end, text }));
                    assert(ivals(self.intervals@)[i as int] == repair_last(u)[i as int]);
                    assert(forall|k: int| 0 <= k < n && k != i ==> #[trigger] ivals(
                        self.intervals@,
                    )[k] == ivals(before)[k]);
                }
                i = i + 1;
            }
            proof {
                assert(ivals(self.intervals@) =~= repair_last(u));
            }
        }
    }

    /// Fills every gap with an interval carrying the given label: a leading
    /// gap against the declared start, a trailing gap against the declared
    /// end, and each interior gap between adjacent intervals.
    pub fn fill_gaps(&mut self, text: &str)
        ensures
            ivals(final(self).intervals@) == spec_fill_gaps(
                old(self).xmin,
                old(self).xmax,
                ivals(old(self).intervals@),
                text@,
            ),
            final(self).name@ == old(self).name@,
            final(self).xmin == old(self).xmin,
            final(self).xmax == old(self).xmax,
    {
        if self.intervals.len() == 0 {
            return ;
        }
        sort_intervals(&mut self.intervals);
        proof {
            lemma_sort_by_start_props(ivals(old(self).intervals@));
        }
        let ghost u = ivals(self.intervals@);
        if self.xmin.lt(&self.intervals[0].xmin) {
            let first_start = self.intervals[0].xmin;
            let f = Interval { xmin: self.xmin, xmax: first_start, text: text.to_owned() };
            self.intervals.insert(0, f);
        }
        let ghost lead = ivals(self.intervals@);
        proof {
            if u[0].xmin.spec_lt(u[0].xmin) {
            }
            assert(lead =~= if self.xmin.spec_lt(u[0].xmin) {
                seq![IntervalView { xmin: self.xmin, xmax: u[0].xmin, text: text@ }] + u
            } else {
                u
            });
        }
        let last = self.intervals.len() - 1;
        if self.intervals[last].xmax.lt(&self.xmax) {
            let last_end = self.intervals[last].xmax;
            let f = Interval { xmin: last_end, xmax: self.xmax, text: text.to_owned() };
            proof {
                assert(lead.last() == ivals(self.intervals@)[last as int]);
            }
            self.intervals.push(f);
        }
        let ghost full = ivals(self.intervals@);
        proof {
            assert(lead.last() == ivals(self.intervals@)[lead.len() - 1]);
            assert(full =~= if lead.last().xmax.spec_lt(self.xmax) {
                lead.push(
                    IntervalView { xmin: lead.last().xmax, xmax: self.xmax, text: text@ },
                )
            } else {
                lead
            });
        }
        let n = self.intervals.len();
        let mut out: Vec<Interval> = Vec::new();
        let mut i: usize = 0;
        proof {
            assert(full.subrange(0, n as int) =~= full);
            assert(ivals(out@) =~= Seq::<IntervalView>::empty());
            assert(Seq::<IntervalView>::empty() + fill_between(full, text@) =~= fill_between(
                full,
                text@,
            ));
        }
        while i < n
            invariant
                n == self.intervals@.len(),
                full == ivals(self.intervals@),
                full.len() == n,
                i <= n,
                ivals(out@) + fill_between(full.subrange(i as int, n as int), text@)
                    == fill_between(full, text@),
            decreases n - i,
        {
            let ghost rest = full.subrange(i as int, n as int);
            let ghost out0 = out@;
            out.push(self.intervals[i].clone());
            if i + 1 < n {
                if self.intervals[i].xmax.lt(&self.intervals[i + 1].xmin) {
                    let gs = self.intervals[i].xmax;
                    let ge = self.intervals[i + 1].xmin;
                    out.push(Interval { xmin: gs, xmax: ge, text: text.to_owned() });
                }
            }
            i = i + 1;
            proof {
                let rest2 = full.subrange(i as int, n as int);
                assert(rest[0] == full[i - 1]);
                if i < n {
                    assert(rest[1] == full[i as int]);
                    assert(rest.subrange(1, rest.len() as int) =~= rest2);
                    if full[i - 1].xmax.spec_lt(full[i as int].xmin) {
                        assert(fill_between(rest, text@) == seq![
                            rest[0],
                            IntervalView { xmin: rest[0].xmax, xmax: rest[1].xmin, text: text@ },
                        ] + fill_between(rest2, text@));
                        assert(ivals(out@) =~= ivals(out0) + seq![
                            full[i - 1],
                            IntervalView {
                                xmin: full[i - 1].xmax,
                                xmax: full[i as int].xmin,
                                text: text@,
                            },
                        ]);
                    } else {
                        assert(fill_between(rest, text@) == seq![rest[0]] + fill_between(
                            rest2,
                            text@,
                        ));
                        assert(ivals(out@) =~= ivals(out0) + seq![full[i - 1]]);
                    }
                    assert(ivals(out@) + fill_between(rest2, text@) =~= ivals(out0)
                        + fill_between(rest, text@));
                } else {
                    assert(rest.len() == 1);
                    assert(fill_between(rest, text@) == rest);
                    assert(ivals(out@) =~= ivals(out0) + rest);
                    assert(rest2 =~= Seq::<IntervalView>::empty());
                    assert(fill_between(rest2, text@) == rest2);
                    assert(ivals(out@) + fill_between(rest2, text@) =~= ivals(out0)
                        + fill_between(rest, text@));
                }
            }
        }
        proof {
            assert(full.subrange(n as int, n as int) =~= Seq::<IntervalView>::empty());
            assert(fill_between(full.subrange(n as int, n as int), text@) == Seq::<
                IntervalView,
            >::empty());
            assert(ivals(out@) + Seq::<IntervalView>::empty() =~= ivals(out@));
        }
        self.intervals = out;
    }
}

/// Chains adjacent order facts into a pairwise one.
proof fn lemma_le_chain(s: Seq<IntervalView>, i: int, j: int)
    requires
        forall|k: int| 0 <= k < s.len() - 1 ==> ival_le(#[trigger] s[k], s[k + 1]),
        0 <= i < j < s.len(),
    ensures
        ival_le(s[i], s[j]),
    decreases j - i,
{
    if i + 1 == j {
        assert(ival_le(s[i], s[i + 1]));
    } else {
        lemma_le_chain(s, i, j - 1);
        assert(ival_le(s[j - 1], s[j - 1 + 1]));
        lemma_le_trans(s[i].xmin, s[j - 1].xmin, s[j].xmin);
    }
}

/// A sequence whose adjacent pairs are ordered is sorted.
pub proof fn lemma_adjacent_sorted(s: Seq<IntervalView>)
    requires
        forall|k: int| 0 <= k < s.len() - 1 ==> ival_le(#[trigger] s[k], s[k + 1]),
    ensures
        sorted_by_start(s),
{
    assert forall|i: int, j: int| 0 <= i < j < s.len() implies ival_le(
        #[trigger] s[i],
        #[trigger] s[j],
    ) by {
        lemma_le_chain(s, i, j);
    }
}

/// Boundary repair preferring later intervals is idempotent: a second run
/// returns exactly the first run's result, for every tier.
pub proof fn lemma_repair_prefer_last_idempotent(s: Seq<IntervalView>)
    ensures
        spec_fix_boundaries(spec_fix_boundaries(s, false), false) == spec_fix_boundaries(s, false),
{
    if s.len() < 2 {
    } else {
        lemma_sort_by_start_props(s);
        let u = sort_by_start(s);
        let t = repair_last(u);
        assert(t.len() == u.len());
        assert forall|k: int| 0 <= k < t.len() - 1 implies ival_le(#[trigger] t[k], t[k + 1]) by {
            assert(t[k].xmin == u[k].xmin && t[k + 1].xmin == u[k + 1].xmin);
            assert(ival_le(u[k], u[k + 1]));
        }
        lemma_adjacent_sorted(t);
        lemma_sort_of_sorted(t);
        assert(repair_last(t) =~= t) by {
            assert forall|k: int| 0 <= k < t.len() implies #[trigger] repair_last(t)[k] == t[
                k] by {
                if k < t.len() - 1 {
                    assert(t[k + 1].xmin == u[k + 1].xmin);
                    assert(t[k].xmax == u[k + 1].xmin);
                }
            }
        }
    }
}

/// Boundary repair preferring earlier intervals is idempotent on every tier
/// whose intervals, once ordered by start, have non-decreasing ends and a
/// first interval that does not run backwards.  (On other tiers the first
/// run can leave the intervals out of start order, and the second run's
/// fresh sort makes it repair different pairs.)
pub proof fn lemma_repair_prefer_first_idempotent(s: Seq<IntervalView>)
    requires
        s.len() >= 2 ==> sort_by_start(s)[0].xmin.spec_le(sort_by_start(s)[0].xmax),
        s.len() >= 2 ==> forall|k: int|
            0 <= k < s.len() - 1 ==> (#[trigger] sort_by_start(s)[k]).xmax.spec_le(
                sort_by_start(s)[k + 1].xmax,
            ),
    ensures
        spec_fix_boundaries(spec_fix_boundaries(s, true), true) == spec_fix_boundaries(s, true),
{
    if s.len() < 2 {
    } else {
        lemma_sort_by_start_props(s);
        let u = sort_by_start(s);
        let t = repair_first(u);
        assert(t.len() == u.len());
        assert forall|k: int| 0 <= k < t.len() - 1 implies ival_le(#[trigger] t[k], t[k + 1]) by {
            if k == 0 {
                assert(t[0].xmin == u[0].xmin && t[1].xmin == u[0].xmax);
            } else {
                assert(t[k].xmin == u[k - 1].xmax && t[k + 1].xmin == u[k].xmax);
                assert(u[k - 1].xmax.spec_le(u[k - 1 + 1].xmax));
            }
        }
        lemma_adjacent_sorted(t);
        lemma_sort_of_sorted(t);
        assert(repair_first(t) =~= t) by {
            assert forall|k: int| 0 <= k < t.len() implies #[trigger] repair_first(t)[k] == t[
                k] by {
                if k > 0 {
                    assert(t[k - 1].xmax == u[k - 1].xmax);
                    assert(t[k].xmin == u[k - 1].xmax);
                }
            }
        }
    }
}

/// Interior gap filling keeps the first and last interval and leaves every
/// adjacent pair meeting exactly, provided no pair overlaps.
proof fn lemma_fill_between_props(s: Seq<IntervalView>, filler: Seq<char>)
    requires
        s.len() >= 1,
        forall|k: int| 0 <= k < s.len() - 1 ==> (#[trigger] s[k]).xmax.spec_le(s[k + 1].xmin),
    ensures
        fill_between(s, filler).len() >= 1,
        fill_between(s, filler)[0] == s[0],
        fill_between(s, filler).last() == s.last(),
        forall|k: int| 0 <= k < fill_between(s, filler).len() - 1 ==> (#[trigger] fill_between(
            s,
            filler,
        )[k]).xmax.same_value(fill_between(s, filler)[k + 1].xmin),
    decreases s.len(),
{
    let r = fill_between(s, filler);
    if s.len() == 1 {
        assert(r == s);
    } else {
        let tail = s.subrange(1, s.len() as int);
        assert(tail.len() == s.len() - 1);
        assert(forall|k: int| 0 <= k < tail.len() ==> #[trigger] tail[k] == s[k + 1]);
        lemma_fill_between_props(tail, filler);
        let rt = fill_between(tail, filler);
        if s[0].xmax.spec_lt(s[1].xmin) {
            let gap = IntervalView { xmin: s[0].xmax, xmax: s[1].xmin, text: filler };
            assert(r == seq![s[0], gap] + rt);
            assert(r.last() == rt.last());
            assert forall|k: int| 0 <= k < r.len() - 1 implies (#[trigger] r[k]).xmax.same_value(
                r[k + 1].xmin,
            ) by {
                if k == 0 {
                    assert(r[0] == s[0] && r[1] == gap);
                } else if k == 1 {
                    assert(r[1] == gap && r[2] == rt[0]);
                    assert(rt[0] == tail[0]);
                } else {
                    assert(r[k] == rt[k - 2] && r[k + 1] == rt[k - 2 + 1]);
                    assert(rt[k - 2].xmax.same_value(rt[k - 2 + 1].xmin));
                }
            }
        } else {
            assert(r == seq![s[0]] + rt);
            assert(r.last() == rt.last());
            assert(s[1].xmin.spec_le(s[0].xmax));
            assert(s[0].xmax.spec_le(s[1].xmin));
            assert forall|k: int| 0 <= k < r.len() - 1 implies (#[trigger] r[k]).xmax.same_value(
                r[k + 1].xmin,
            ) by {
                if k == 0 {
                    assert(r[0] == s[0] && r[1] == rt[0]);
                    assert(rt[0] == tail[0]);
                } else {
                    assert(r[k] == rt[k - 1] && r[k + 1] == rt[k - 1 + 1]);
                    assert(rt[k - 1].xmax.same_value(rt[k - 1 + 1].xmin));
                }
            }
        }
    }
}

/// After gap filling on a tier whose sorted intervals do not overlap and
/// lie within the declared bounds, the intervals tile the whole declared
/// range: the first begins at the declared start, the last ends at the
/// declared end, and every adjacent pair meets exactly.
pub proof fn lemma_fill_gaps_tiles(
    xmin: Decimal,
    xmax: Decimal,
    s: Seq<IntervalView>,
    filler: Seq<char>,
)
    requires
        s.len() >= 1,
        forall|k: int| 0 <= k < s.len() - 1 ==> (#[trigger] sort_by_start(s)[k]).xmax.spec_le(
            sort_by_start(s)[k + 1].xmin,
        ),
        xmin.spec_le(sort_by_start(s)[0].xmin),
        sort_by_start(s).last().xmax.spec_le(xmax),
    ensures
        spec_fill_gaps(xmin, xmax, s, filler).len() >= 1,
        spec_fill_gaps(xmin, xmax, s, filler)[0].xmin.same_value(xmin),
        spec_fill_gaps(xmin, xmax, s, filler).last().xmax.same_value(xmax),
        forall|k: int| 0 <= k < spec_fill_gaps(xmin, xmax, s, filler).len() - 1 ==> (
        #[trigger] spec_fill_gaps(xmin, xmax, s, filler)[k]).xmax.same_value(
            spec_fill_gaps(xmin, xmax, s, filler)[k + 1].xmin,
        ),
{
    lemma_sort_by_start_props(s);
    let u = sort_by_start(s);
    let lead = if xmin.spec_lt(u[0].xmin) {
        seq![IntervalView { xmin, xmax: u[0].xmin, text: filler }] + u
    } else {
        u
    };
    assert(lead.last() == u.last());
    assert(lead[0].xmin.same_value(xmin)) by {
        if !xmin.spec_lt(u[0].xmin) {
            assert(u[0].xmin.spec_le(xmin));
        }
    }
    assert(forall|k: int| 0 <= k < lead.len() - 1 ==> (#[trigger] lead[k]).xmax.spec_le(
        lead[k + 1].xmin,
    )) by {
        if xmin.spec_lt(u[0].xmin) {
            assert(forall|k: int| 1 <= k < lead.len() ==> #[trigger] lead[k] == u[k - 1]);
            assert(lead[0].xmax == u[0].xmin);
            assert forall|k: int| 0 <= k < lead.len() - 1 implies (#[trigger] lead[k]).xmax.spec_le(
                lead[k + 1].xmin,
            ) by {
                if k == 0 {
                    crate::decimal::lemma_le_refl(u[0].xmin);
                } else {
                    assert(lead[k] == u[k - 1] && lead[k + 1] == u[k]);
                    assert(u[k - 1].xmax.spec_le(u[k - 1 + 1].xmin));
                }
            }
        }
    }
    let full = if lead.last().xmax.spec_lt(xmax) {
        lead.push(IntervalView { xmin: lead.last().xmax, xmax, text: filler })
    } else {
        lead
    };
    assert(full[0] == lead[0]);
    assert(full.last().xmax.same_value(xmax)) by {
        if !lead.last().xmax.spec_lt(xmax) {
            assert(xmax.spec_le(lead.last().xmax));
        }
    }
    assert(forall|k: int| 0 <= k < full.len() - 1 ==> (#[trigger] full[k]).xmax.spec_le(
        full[k + 1].xmin,
    )) by {
        if lead.last().xmax.spec_lt(xmax) {
            assert(forall|k: int| 0 <= k < lead.len() ==> #[trigger] full[k] == lead[k]);
            assert forall|k: int| 0 <= k < full.len() - 1 implies (#[trigger] full[k]).xmax.spec_le(
                full[k + 1].xmin,
            ) by {
                if k == full.len() - 2 {
                    assert(full[k] == lead[lead.len() - 1]);
                    assert(full[k + 1].xmin == lead.last().xmax);
                    crate::decimal::lemma_le_refl(lead.last().xmax);
                } else {
                    assert((#[trigger] lead[k]).xmax.spec_le(lead[k + 1].xmin));
                }
            }
        }
    }
    lemma_fill_between_props(full, filler);
    assert(spec_fill_gaps(xmin, xmax, s, filler) == fill_between(full, filler));
}

impl Tier {
    /// The descriptive multi-line text for this tier.
    pub fn to_text(&self) -> (r: String)
        ensures
            r@ == "IntervalTier "@ + self.name@ + ":\n                xmin:  "@
                + self.xmin.spec_text() + "\n                xmax:  "@ + self.xmax.spec_text()
                + "\n                interval count: "@ + crate::decimal::spec_digits(
                self.intervals@.len(),
            ),
    {
        let mut r: String = "IntervalTier ".to_owned();
        r.append(self.name.as_str());
        r.append(":\n                xmin:  ");
        r.append(self.xmin.to_text().as_str());
        r.append("\n                xmax:  ");
        r.append(self.xmax.to_text().as_str());
        r.append("\n                interval count: ");
        r.append(crate::decimal::u64_to_string(self.intervals.len() as u64).as_str());
        r
    }
}

/// The least interval start, by value, or `None` for an empty tier.
fn min_start(v: &Vec<Interval>) -> (r: Option<Decimal>)
    ensures
        r is Some <==> v@.len() > 0,
        r matches Some(m) ==> (exists|k: int| 0 <= k < v@.len() && (#[trigger] v@[k]).xmin == m)
            && forall|k: int| 0 <= k < v@.len() ==> m.spec_le((#[trigger] v@[k]).xmin),
{
    if v.len() == 0 {
        return None;
    }
    let mut m: Decimal = v[0].xmin;
    let mut i: usize = 1;
    while i < v.len()
        invariant
            1 <= i <= v@.len(),
            exists|k: int| 0 <= k < i && (#[trigger] v@[k]).xmin == m,
            forall|k: int| 0 <= k < i ==> m.spec_le((#[trigger] v@[k]).xmin),
        decreases v@.len() - i,
    {
        let ghost prev = m;
        if v[i].xmin.lt(&m) {
            m = v[i].xmin;
            proof {
                lemma_le_total(m, prev);
                assert forall|k: int| 0 <= k < i + 1 implies m.spec_le(
                    (#[trigger] v@[k]).xmin,
                ) by {
                    if k < i {
                        lemma_le_trans(m, prev, v@[k].xmin);
                    }
                }
            }
        }
        i = i + 1;
    }
    Some(m)
}

/// The greatest interval end, by value, or `None` for an empty tier.
fn max_end(v: &Vec<Interval>) -> (r: Option<Decimal>)
    ensures
        r is Some <==> v@.len() > 0,
        r matches Some(m) ==> (exists|k: int| 0 <= k < v@.len() && (#[trigger] v@[k]).xmax == m)
            && forall|k: int| 0 <= k < v@.len() ==> (#[trigger] v@[k]).xmax.spec_le(m),
{
    if v.len() == 0 {
        return None;
    }
    let mut m: Decimal = v[0].xmax;
    let mut i: usize = 1;
    while i < v.len()
        invariant
            1 <= i <= v@.len(),
            exists|k: int| 0 <= k < i && (#[trigger] v@[k]).xmax == m,
            forall|k: int| 0 <= k < i ==> (#[trigger] v@[k]).xmax.spec_le(m),
        decreases v@.len() - i,
    {
        let ghost prev = m;
        if m.lt(&v[i].xmax) {
            m = v[i].xmax;
            proof {
                lemma_le_total(prev, m);
                assert forall|k: int| 0 <= k < i + 1 implies (#[trigger] v@[k]).xmax.spec_le(
                    m,
                ) by {
                    if k < i {
                        lemma_le_trans(v@[k].xmax, prev, m);
                    }
                }
            }
        }
        i = i + 1;
    }
    Some(m)
}

} // verus!
