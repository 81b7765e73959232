//! The document model: a time range and its ordered, named tiers.

use crate::decimal::{spec_digits, u64_to_string, Decimal};
use crate::interval::{
    defect_pairs, ivals, spec_fill_gaps, spec_fix_boundaries, Tier as IntervalTier,
    TierView as IntervalTierView,
};
use crate::point::{dup_pairs, pvals, Tier as PointTier, TierView as PointTierView};
use crate::warning::Warning;
use vstd::prelude::*;

verus! {

/// The mathematical content of a tier of either kind.
pub ghost enum TierView {
    IntervalTier(IntervalTierView),
    PointTier(PointTierView),
}

/// A tier of either kind.
#[derive(Debug)]
pub enum Tier {
    IntervalTier(IntervalTier),
    PointTier(PointTier),
}

impl View for Tier {
    type V = TierView;

    open spec fn view(&self) -> TierView {
        match self {
            Tier::IntervalTier(t) => TierView::IntervalTier(t@),
            Tier::PointTier(t) => TierView::PointTier(t@),
        }
    }
}

impl Clone for Tier {
    fn clone(&self) -> (r: Self)
        ensures
            r@ == self@,
    {
        match self {
            Tier::IntervalTier(t) => Tier::IntervalTier(t.clone()),
            Tier::PointTier(t) => Tier::PointTier(t.clone()),
        }
    }
}

/// The zero time.
pub open spec fn spec_zero() -> Decimal {
    Decimal { neg: false, units: 0, scale: 0 }
}

/// A tier's name.
pub open spec fn tier_name(t: TierView) -> Seq<char> {
    match t {
        TierView::IntervalTier(v) => v.name,
        TierView::PointTier(v) => v.name,
    }
}

/// A tier's declared start.
pub open spec fn tier_xmin(t: TierView) -> Decimal {
    match t {
        TierView::IntervalTier(v) => v.xmin,
        TierView::PointTier(v) => v.xmin,
    }
}

/// A tier's declared end.
pub open spec fn tier_xmax(t: TierView) -> Decimal {
    match t {
        TierView::IntervalTier(v) => v.xmax,
        TierView::PointTier(v) => v.xmax,
    }
}

/// The views of a sequence of tiers.
pub open spec fn tviews(s: Seq<Tier>) -> Seq<TierView> {
    s.map_values(|t: Tier| t@)
}

impl Tier {
    /// The interval tier inside, if this is one.
    pub fn get_interval_tier(&self) -> (r: Option<&IntervalTier>)
        ensures
            match r {
                Some(t) => self@ == TierView::IntervalTier(t@),
                None => self@ is PointTier,
            },
    {
        match self {
            Tier::IntervalTier(t) => Some(t),
            Tier::PointTier(_) => None,
        }
    }

    /// The point tier inside, if this is one.
    pub fn get_point_tier(&self) -> (r: Option<&PointTier>)
        ensures
            match r {
                Some(t) => self@ == TierView::PointTier(t@),
                None => self@ is IntervalTier,
            },
    {
        match self {
            Tier::PointTier(t) => Some(t),
            Tier::IntervalTier(_) => None,
        }
    }

    /// The name of the tier, of either kind.
    pub fn name(&self) -> (r: &String)
        ensures
            r@ == tier_name(self@),
    {
        match self {
            Tier::IntervalTier(t) => t.name(),
            Tier::PointTier(t) => t.name(),
        }
    }

    /// The descriptive multi-line text for the tier, of either kind.
    pub fn to_text(&self) -> (r: String)
        ensures
            match self@ {
                TierView::IntervalTier(_) => true,
                TierView::PointTier(_) => true,
            },
    {
        match self {
            Tier::IntervalTier(t) => t.to_text(),
            Tier::PointTier(t) => t.to_text(),
        }
    }
}

impl Default for Tier {
    /// An empty interval tier.
    fn default() -> (r: Self)
        ensures
            r@ matches TierView::IntervalTier(v) && v.name == Seq::<char>::empty() && v.xmin
                == spec_zero() && v.xmax == spec_zero() && v.intervals == Seq::<
                crate::interval::IntervalView,
            >::empty(),
    {
        let t = IntervalTier::new(String::new(), Decimal::from_parts_pos(0, 0), Decimal::from_parts_pos(0, 0), Vec::new());
        proof {
            assert(ivals(Seq::<crate::interval::Interval>::empty()) =~= Seq::<
                crate::interval::IntervalView,
            >::empty());
        }
        Tier::IntervalTier(t)
    }
}

/// The two fixed output layouts.
#[derive(Copy, Clone, Debug)]
pub enum OutputFormat {
    Long,
    Short,
}

/// The mathematical content of a document.
pub ghost struct TextGridView {
    pub xmin: Decimal,
    pub xmax: Decimal,
    pub tiers: Seq<TierView>,
    pub name: Seq<char>,
}

/// A document: a global time range, its tiers in declaration order, and a
/// display name.
#[derive(Debug)]
pub struct TextGrid {
    pub xmin: Decimal,
    pub xmax: Decimal,
    pub tiers: Vec<Tier>,
    pub name: String,
}

impl View for TextGrid {
    type V = TextGridView;

    open spec fn view(&self) -> TextGridView {
        TextGridView { xmin: self.xmin, xmax: self.xmax, tiers: tviews(self.tiers@), name: self.name@ }
    }
}

/// The first position holding a tier of the given name, or the length when
/// there is none.
pub open spec fn index_of_tier(s: Seq<TierView>, name: Seq<char>, i: nat) -> nat
    decreases s.len() - i,
{
    if i >= s.len() {
        s.len() as nat
    } else if tier_name(s[i as int]) == name {
        i
    } else {
        index_of_tier(s, name, i + 1)
    }
}

/// Whether some tier bears the given name.
pub open spec fn has_tier(s: Seq<TierView>, name: Seq<char>) -> bool {
    index_of_tier(s, name, 0) < s.len()
}

proof fn lemma_index_of_tier_bounds(s: Seq<TierView>, name: Seq<char>, i: nat)
    requires
        i <= s.len(),
    ensures
        i <= index_of_tier(s, name, i) <= s.len(),
        index_of_tier(s, name, i) < s.len() ==> tier_name(s[index_of_tier(s, name, i) as int])
            == name,
        forall|k: int| i <= k < index_of_tier(s, name, i) ==> tier_name(#[trigger] s[k]) != name,
    decreases s.len() - i,
{
    if i < s.len() && tier_name(s[i as int]) != name {
        lemma_index_of_tier_bounds(s, name, i + 1);
    }
}

impl TextGrid {
    pub fn new(xmin: Decimal, xmax: Decimal, tiers: Vec<Tier>, name: String) -> (r: TextGrid)
        ensures
            r.xmin == xmin,
            r.xmax == xmax,
            r.tiers@ == tiers@,
            r.name@ == name@,
    {
        TextGrid { xmin, xmax, tiers, name }
    }

    pub fn xmin(&self) -> (r: &Decimal)
        ensures
            *r == self.xmin,
    {
        &self.xmin
    }

    pub fn xmax(&self) -> (r: &Decimal)
        ensures
            *r == self.xmax,
    {
        &self.xmax
    }

    pub fn tiers(&self) -> (r: &Vec<Tier>)
        ensures
            r@ == self.tiers@,
    {
        &self.tiers
    }

    pub fn name(&self) -> (r: &String)
        ensures
            r@ == self.name@,
    {
        &self.name
    }

    pub fn set_name(&mut self, name: String)
        ensures
            final(self).name@ == name@,
            final(self).xmin == old(self).xmin,
            final(self).xmax == old(self).xmax,
            final(self).tiers@ == old(self).tiers@,
    {
        self.name = name;
    }

    /// The number of tiers.
    pub fn get_size(&self) -> (r: usize)
        ensures
            r == self.tiers@.len(),
    {
        self.tiers.len()
    }

    /// The first tier of the given name, if any.
    pub fn get_tier(&self, name: &str) -> (r: Option<&Tier>)
        ensures
            match r {
                Some(t) => has_tier(tviews(self.tiers@), name@) && t@ == tviews(self.tiers@)[
                    index_of_tier(tviews(self.tiers@), name@, 0) as int],
                None => !has_tier(tviews(self.tiers@), name@),
            },
    {
        let ghost s = tviews(self.tiers@);
        let n = self.tiers.len();
        let mut i: usize = 0;
        while i < n
            invariant
                n == self.tiers@.len(),
                s == tviews(self.tiers@),
                i <= n,
                forall|k: int| 0 <= k < i ==> tier_name(#[trigger] s[k]) != name@,
            decreases n - i,
        {
            let tn = self.tiers[i].name();
            if string_eq_str(tn, name) {
                proof {
                    lemma_index_of_tier_bounds(s, name@, 0);
                    assert(tier_name(s[i as int]) == name@);
                    let idx = index_of_tier(s, name@, 0);
                    assert(idx == i) by {
                        if idx < i {
                            assert(tier_name(s[idx as int]) == name@);
                        }
                        if idx > i {
                            assert(tier_name(s[i as int]) != name@);
                        }
                    }
                }
                return Some(&self.tiers[i]);
            }
            proof {
                assert(tier_name(s[i as int]) != name@);
            }
            i = i + 1;
        }
        proof {
            lemma_index_of_tier_bounds(s, name@, 0);
        }
        None
    }

    /// Removes the first tier of the given name.  When `warn` is set and no
    /// tier bears the name, an advisory is returned.
    pub fn delete_tier(&mut self, name: &str, warn: bool) -> (w: Vec<Warning>)
        ensures
            final(self).xmin == old(self).xmin,
            final(self).xmax == old(self).xmax,
            final(self).name@ == old(self).name@,
            ({
                let s = tviews(old(self).tiers@);
                let k = index_of_tier(s, name@, 0) as int;
                if has_tier(s, name@) {
                    tviews(final(self).tiers@) == s.subrange(0, k) + s.subrange(
                        k + 1,
                        s.len() as int,
                    ) && w@.len() == 0
                } else {
                    final(self).tiers@ == old(self).tiers@ && (w@.len() > 0 <==> warn)
                }
            }),
    {
        let ghost s = tviews(self.tiers@);
        let n = self.tiers.len();
        let mut i: usize = 0;
        while i < n
            invariant
                n == self.tiers@.len(),
                s == tviews(self.tiers@),
                i <= n,
                forall|k: int| 0 <= k < i ==> tier_name(#[trigger] s[k]) != name@,
                self.xmin == old(self).xmin,
                self.xmax == old(self).xmax,
                self.name@ == old(self).name@,
                self.tiers@ == old(self).tiers@,
            decreases n - i,
        {
            let tn = self.tiers[i].name();
            if string_eq_str(tn, name) {
                proof {
                    lemma_index_of_tier_bounds(s, name@, 0);
                    assert(tier_name(s[i as int]) == name@);
                    let idx = index_of_tier(s, name@, 0);
                    assert(idx == i) by {
                        if idx < i {
                            assert(tier_name(s[idx as int]) == name@);
                        }
                        if idx > i {
                            assert(tier_name(s[i as int]) != name@);
                        }
                    }
                }
                self.tiers.remove(i);
                proof {
                    assert(tviews(self.tiers@) =~= s.subrange(0, i as int) + s.subrange(
                        i + 1,
                        s.len() as int,
                    ));
                }
                return Vec::new();
            }
            proof {
                assert(tier_name(s[i as int]) != name@);
            }
            i = i + 1;
        }
        proof {
            lemma_index_of_tier_bounds(s, name@, 0);
        }
        let mut w: Vec<Warning> = Vec::new();
        if warn {
            w.push(Warning::NoSuchTier { name: name.to_owned() });
        }
        w
    }
}

/// A tier's view with another name.
pub open spec fn tier_with_name(t: TierView, name: Seq<char>) -> TierView {
    match t {
        TierView::IntervalTier(v) => TierView::IntervalTier(IntervalTierView { name, ..v }),
        TierView::PointTier(v) => TierView::PointTier(PointTierView { name, ..v }),
    }
}

/// Replaces a tier's name.
fn rename_tier(t: Tier, name: String) -> (r: Tier)
    ensures
        r@ == tier_with_name(t@, name@),
{
    match t {
        Tier::IntervalTier(mut it) => {
            it.set_name(name);
            Tier::IntervalTier(it)
        },
        Tier::PointTier(mut pt) => {
            pt.set_name(name);
            Tier::PointTier(pt)
        },
    }
}

/// A tier's declared start, executable.
fn tier_xmin_of(t: &Tier) -> (r: Decimal)
    ensures
        r == tier_xmin(t@),
{
    match t {
        Tier::IntervalTier(it) => it.xmin,
        Tier::PointTier(pt) => pt.xmin,
    }
}

/// A tier's declared end, executable.
fn tier_xmax_of(t: &Tier) -> (r: Decimal)
    ensures
        r == tier_xmax(t@),
{
    match t {
        Tier::IntervalTier(it) => it.xmax,
        Tier::PointTier(pt) => pt.xmax,
    }
}

impl TextGrid {
    /// Sets the document's lower bound.  A value past the upper bound is
    /// clamped to it; a negative value is clamped to zero.  When `warn` is
    /// set, a clamp or a tier beginning before the new bound yields an
    /// advisory.
    pub fn set_xmin(&mut self, xmin: Decimal, warn: bool) -> (w: Vec<Warning>)
        ensures
            final(self).name@ == old(self).name@,
            final(self).xmax == old(self).xmax,
            final(self).tiers@ == old(self).tiers@,
            final(self).xmin == (if old(self).xmax.spec_lt(xmin) {
                old(self).xmax
            } else if xmin.spec_lt(spec_zero()) {
                spec_zero()
            } else {
                xmin
            }),
            !warn ==> w@.len() == 0,
            warn ==> ((w@.len() > 0) <==> (old(self).xmax.spec_lt(xmin) || xmin.spec_lt(
                spec_zero(),
            ) || exists|k: int|
                0 <= k < old(self).tiers@.len() && tier_xmin(
                    #[trigger] tviews(old(self).tiers@)[k],
                ).spec_lt(xmin))),
    {
        let mut w: Vec<Warning> = Vec::new();
        if self.xmax.lt(&xmin) {
            if warn {
                w.push(Warning::StartClampedToEnd);
            }
            self.xmin = self.xmax;
            return w;
        }
        let zero = Decimal::from_parts_pos(0, 0);
        if xmin.lt(&zero) {
            if warn {
                w.push(Warning::StartClampedToZero);
            }
            self.xmin = zero;
            return w;
        }
        if warn {
            let ghost s = tviews(self.tiers@);
            let n = self.tiers.len();
            let mut k: usize = 0;
            while k < n
                invariant
                    n == self.tiers@.len(),
                    s == tviews(self.tiers@),
                    k <= n,
                    (w@.len() > 0) <==> exists|q: int|
                        0 <= q < k && tier_xmin(#[trigger] s[q]).spec_lt(xmin),
                decreases n - k,
            {
                let txmin = tier_xmin_of(&self.tiers[k]);
                proof {
                    assert(s[k as int] == self.tiers@[k as int]@);
                }
                if txmin.lt(&xmin) {
                    w.push(
                        Warning::BelowStart {
                            tier: self.tiers[k].name().clone(),
                            value: txmin,
                            bound: xmin,
                        },
                    );
                    proof {
                        assert(tier_xmin(s[k as int]).spec_lt(xmin));
                    }
                } else {
                    proof {
                        assert(!tier_xmin(s[k as int]).spec_lt(xmin));
                    }
                }
                k = k + 1;
            }
        }
        self.xmin = xmin;
        w
    }

    /// Sets the document's upper bound.  A value under the lower bound is
    /// clamped to it; a negative value is clamped to zero.  When `warn` is
    /// set, a clamp or a tier ending past the new bound yields an advisory.
    pub fn set_xmax(&mut self, xmax: Decimal, warn: bool) -> (w: Vec<Warning>)
        ensures
            final(self).name@ == old(self).name@,
            final(self).xmin == old(self).xmin,
            final(self).tiers@ == old(self).tiers@,
            final(self).xmax == (if xmax.spec_lt(old(self).xmin) {
                old(self).xmin
            } else if xmax.spec_lt(spec_zero()) {
                spec_zero()
            } else {
                xmax
            }),
            !warn ==> w@.len() == 0,
            warn ==> ((w@.len() > 0) <==> (xmax.spec_lt(old(self).xmin) || xmax.spec_lt(
                spec_zero(),
            ) || exists|k: int|
                0 <= k < old(self).tiers@.len() && xmax.spec_lt(
                    tier_xmax(#[trigger] tviews(old(self).tiers@)[k]),
                ))),
    {
        let mut w: Vec<Warning> = Vec::new();
        if xmax.lt(&self.xmin) {
            if warn {
                w.push(Warning::EndClampedToStart);
            }
            self.xmax = self.xmin;
            return w;
        }
        let zero = Decimal::from_parts_pos(0, 0);
        if xmax.lt(&zero) {
            if warn {
                w.push(Warning::EndClampedToZero);
            }
            self.xmax = zero;
            return w;
        }
        if warn {
            let ghost s = tviews(self.tiers@);
            let n = self.tiers.len();
            let mut k: usize = 0;
            while k < n
                invariant
                    n == self.tiers@.len(),
                    s == tviews(self.tiers@),
                    k <= n,
                    (w@.len() > 0) <==> exists|q: int|
                        0 <= q < k && xmax.spec_lt(tier_xmax(#[trigger] s[q])),
                decreases n - k,
            {
                let txmax = tier_xmax_of(&self.tiers[k]);
                proof {
                    assert(s[k as int] == self.tiers@[k as int]@);
                }
                if xmax.lt(&txmax) {
                    w.push(
                        Warning::PastEnd {
                            tier: self.tiers[k].name().clone(),
                            value: txmax,
                            bound: xmax,
                        },
                    );
                    proof {
                        assert(xmax.spec_lt(tier_xmax(s[k as int])));
                    }
                } else {
                    proof {
                        assert(!xmax.spec_lt(tier_xmax(s[k as int])));
                    }
                }
                k = k + 1;
            }
        }
        self.xmax = xmax;
        w
    }

    /// Appends a tier.  A name already in use gets the least numeric suffix
    /// that frees it, so tier names stay unique.  When `warn` is set, a
    /// rename or bounds outside the document's yield advisories.
    pub fn push_tier(&mut self, tier: Tier, warn: bool) -> (w: Vec<Warning>)
        ensures
            final(self).name@ == old(self).name@,
            final(self).xmin == old(self).xmin,
            final(self).xmax == old(self).xmax,
            final(self).tiers@.len() == old(self).tiers@.len() + 1,
            tviews(final(self).tiers@).subrange(0, old(self).tiers@.len() as int) == tviews(
                old(self).tiers@,
            ),
            ({
                let s = tviews(old(self).tiers@);
                let nm = tier_name(tier@);
                let appended = tviews(final(self).tiers@).last();
                &&& appended == tier_with_name(tier@, tier_name(appended))
                &&& (!has_tier(s, nm) ==> tier_name(appended) == nm)
                &&& (has_tier(s, nm) ==> ((exists|i: nat|
                    1 <= i <= s.len() + 1 && tier_name(appended) == nm + spec_digits(i)
                        && !has_tier(s, nm + spec_digits(i)) && (forall|j: nat|
                        1 <= j < i ==> has_tier(s, nm + spec_digits(j)))) || ((forall|j: nat|
                    1 <= j <= s.len() + 1 ==> has_tier(s, nm + spec_digits(j))) && tier_name(
                    appended,
                ) == nm)))
            }),
            !warn ==> w@.len() == 0,
    {
        let ghost s = tviews(self.tiers@);
        let name: String = tier.name().clone();
        let mut w: Vec<Warning> = Vec::new();
        if warn {
            let txmin = tier_xmin_of(&tier);
            if txmin.lt(&self.xmin) {
                w.push(
                    Warning::BelowStart { tier: name.clone(), value: txmin, bound: self.xmin },
                );
            }
            let txmax = tier_xmax_of(&tier);
            if self.xmax.lt(&txmax) {
                w.push(Warning::PastEnd { tier: name.clone(), value: txmax, bound: self.xmax });
            }
        }
        if self.get_tier(name.as_str()).is_none() {
            self.tiers.push(tier);
            proof {
                assert(tviews(self.tiers@).subrange(0, old(self).tiers@.len() as int) =~= s);
                assert(tviews(self.tiers@).last() == tier@);
            }
            return w;
        }
        let n = self.tiers.len();
        let bound: u128 = (n as u128) + 1;
        let mut inc: u128 = 1;
        let mut chosen: Option<String> = None;
        let ghost mut chosen_i: nat = 0nat;
        while inc <= bound && chosen.is_none()
            invariant
                self.tiers@ == old(self).tiers@,
                s == tviews(self.tiers@),
                n == self.tiers@.len(),
                bound == n + 1,
                1 <= inc <= bound + 1,
                chosen is None ==> forall|j: nat|
                    1 <= j < inc ==> has_tier(s, name@ + spec_digits(j)),
                chosen matches Some(c) ==> (1 <= chosen_i <= bound && c@ == name@ + spec_digits(
                    chosen_i,
                ) && !has_tier(s, c@) && (forall|j: nat|
                    1 <= j < chosen_i ==> has_tier(s, name@ + spec_digits(j)))),
            decreases bound + 1 - inc,
        {
            let mut cand: String = name.clone();
            cand.append(crate::decimal::u128_to_string(inc).as_str());
            if self.get_tier(cand.as_str()).is_none() {
                proof {
                    chosen_i = inc as nat;
                }
                chosen = Some(cand);
            }
            inc = inc + 1;
        }
        match chosen {
            Some(c) => {
                if warn {
                    w.push(Warning::TierRenamed { from: name.clone(), to: c.clone() });
                }
                let renamed = rename_tier(tier, c);
                self.tiers.push(renamed);
                proof {
                    assert(tviews(self.tiers@).subrange(0, old(self).tiers@.len() as int) =~= s);
                    assert(tviews(self.tiers@).last() == renamed@);
                }
            },
            None => {
                self.tiers.push(tier);
                proof {
                    assert(tviews(self.tiers@).subrange(0, old(self).tiers@.len() as int) =~= s);
                    assert(tviews(self.tiers@).last() == tier@);
                    assert(tier@ == tier_with_name(tier@, tier_name(tier@))) by {
                        match tier@ {
                            TierView::IntervalTier(v) => {},
                            TierView::PointTier(v) => {},
                        }
                    }
                }
            },
        }
        w
    }
}

/// The defect pairs of one tier, each tagged with the tier's name:
/// boundary defects for an interval tier, duplicate positions for a point
/// tier.
pub open spec fn tier_defects(t: TierView) -> Seq<(Seq<char>, (u64, u64))> {
    match t {
        TierView::IntervalTier(v) => defect_pairs(v.intervals).map_values(
            |p: (u64, u64)| (v.name, p),
        ),
        TierView::PointTier(v) => dup_pairs(v.points).map_values(|p: (u64, u64)| (v.name, p)),
    }
}

/// The defect pairs of all tiers, in tier order.
pub open spec fn all_defects(s: Seq<TierView>) -> Seq<(Seq<char>, (u64, u64))>
    decreases s.len(),
{
    if s.len() == 0 {
        Seq::empty()
    } else {
        tier_defects(s[0]) + all_defects(s.subrange(1, s.len() as int))
    }
}

/// The view of a named defect list.
pub open spec fn named_view(v: Seq<(String, (u64, u64))>) -> Seq<(Seq<char>, (u64, u64))> {
    v.map_values(|e: (String, (u64, u64))| (e.0@, e.1))
}

/// What boundary repair does to one tier.
pub open spec fn fix_tier(t: TierView, prefer_first: bool) -> TierView {
    match t {
        TierView::IntervalTier(v) => TierView::IntervalTier(
            IntervalTierView { intervals: spec_fix_boundaries(v.intervals, prefer_first), ..v },
        ),
        TierView::PointTier(v) => TierView::PointTier(v),
    }
}

/// What gap filling does to one tier.
pub open spec fn fill_tier(t: TierView, text: Seq<char>) -> TierView {
    match t {
        TierView::IntervalTier(v) => TierView::IntervalTier(
            IntervalTierView { intervals: spec_fill_gaps(v.xmin, v.xmax, v.intervals, text), ..v },
        ),
        TierView::PointTier(v) => TierView::PointTier(v),
    }
}

impl TextGrid {
    /// Reports every defect in every tier, each index pair tagged with its
    /// tier's name, in tier order; `None` when no tier has any.
    pub fn check_overlaps(&self) -> (r: Option<Vec<(String, (u64, u64))>>)
        ensures
            match r {
                Some(v) => named_view(v@) == all_defects(tviews(self.tiers@)) && v@.len() > 0,
                None => all_defects(tviews(self.tiers@)).len() == 0,
            },
    {
        let ghost s = tviews(self.tiers@);
        let n = self.tiers.len();
        let mut out: Vec<(String, (u64, u64))> = Vec::new();
        let mut i: usize = 0;
        proof {
            assert(s.subrange(0, n as int) =~= s);
            assert(named_view(out@) =~= Seq::<(Seq<char>, (u64, u64))>::empty());
            assert(Seq::<(Seq<char>, (u64, u64))>::empty() + all_defects(s) =~= all_defects(s));
        }
        while i < n
            invariant
                n == self.tiers@.len(),
                s == tviews(self.tiers@),
                i <= n,
                named_view(out@) + all_defects(s.subrange(i as int, n as int)) == all_defects(s),
            decreases n - i,
        {
            let ghost rest = s.subrange(i as int, n as int);
            let ghost out0 = named_view(out@);
            let pairs: Option<Vec<(u64, u64)>> = match &self.tiers[i] {
                Tier::IntervalTier(t) => t.check_overlaps(),
                Tier::PointTier(t) => t.check_overlaps(),
            };
            let nm: &String = self.tiers[i].name();
            proof {
                assert(rest[0] == s[i as int]);
                assert(s[i as int] == self.tiers@[i as int]@);
            }
            if let Some(v) = pairs {
                let m = v.len();
                let mut j: usize = 0;
                proof {
                    assert(v@.subrange(0, 0) =~= Seq::<(u64, u64)>::empty());
                    assert(v@.subrange(0, 0).map_values(
                        |p: (u64, u64)| (tier_name(s[i as int]), p),
                    ) =~= Seq::<(Seq<char>, (u64, u64))>::empty());
                    assert(out0 + v@.subrange(0, 0).map_values(
                        |p: (u64, u64)| (tier_name(s[i as int]), p),
                    ) =~= out0);
                }
                while j < m
                    invariant
                        m == v@.len(),
                        j <= m,
                        nm@ == tier_name(s[i as int]),
                        named_view(out@) == out0 + v@.subrange(0, j as int).map_values(
                            |p: (u64, u64)| (tier_name(s[i as int]), p),
                        ),
                    decreases m - j,
                {
                    let ghost prev = named_view(out@);
                    out.push((nm.clone(), v[j]));
                    proof {
                        let f = |p: (u64, u64)| (tier_name(s[i as int]), p);
                        assert(named_view(out@) =~= prev.push((nm@, v@[j as int])));
                        assert(v@.subrange(0, j + 1) =~= v@.subrange(0, j as int).push(
                            v@[j as int],
                        ));
                        assert(v@.subrange(0, j + 1).map_values(f) =~= v@.subrange(
                            0,
                            j as int,
                        ).map_values(f).push((tier_name(s[i as int]), v@[j as int])));
                        assert(out0 + v@.subrange(0, j + 1).map_values(f) =~= (out0 + v@.subrange(
                            0,
                            j as int,
                        ).map_values(f)).push((tier_name(s[i as int]), v@[j as int])));
                        assert(named_view(out@) =~= out0 + v@.subrange(0, j + 1).map_values(f));
                    }
                    j = j + 1;
                }
                proof {
                    assert(v@.subrange(0, m as int) =~= v@);
                    assert(named_view(out@) == out0 + tier_defects(s[i as int]));
                }
            } else {
                proof {
                    assert(tier_defects(s[i as int]) =~= Seq::<(Seq<char>, (u64, u64))>::empty());
                    assert(named_view(out@) =~= out0 + tier_defects(s[i as int]));
                }
            }
            i = i + 1;
            proof {
                assert(rest.subrange(1, rest.len() as int) =~= s.subrange(i as int, n as int));
                assert(all_defects(rest) == tier_defects(rest[0]) + all_defects(
                    s.subrange(i as int, n as int),
                ));
                assert(named_view(out@) + all_defects(s.subrange(i as int, n as int)) =~= out0
                    + all_defects(rest));
            }
        }
        proof {
            assert(s.subrange(n as int, n as int) =~= Seq::<TierView>::empty());
            assert(all_defects(s.subrange(n as int, n as int)) == Seq::<
                (Seq<char>, (u64, u64)),
            >::empty());
            assert(named_view(out@) + Seq::<(Seq<char>, (u64, u64))>::empty() =~= named_view(out@));
        }
        if out.len() == 0 {
            None
        } else {
            Some(out)
        }
    }

    /// Repairs the boundaries of every interval tier; point tiers are left
    /// alone.
    pub fn fix_boundaries(&mut self, prefer_first: bool)
        ensures
            final(self).name@ == old(self).name@,
            final(self).xmin == old(self).xmin,
            final(self).xmax == old(self).xmax,
            tviews(final(self).tiers@).len() == old(self).tiers@.len(),
            forall|k: int| 0 <= k < old(self).tiers@.len() ==> tviews(final(self).tiers@)[k]
                == fix_tier(#[trigger] tviews(old(self).tiers@)[k], prefer_first),
    {
        let ghost s = tviews(self.tiers@);
        let n = self.tiers.len();
        let mut i: usize = 0;
        while i < n
            invariant
                n == self.tiers@.len(),
                s.len() == n,
                i <= n,
                self.name@ == old(self).name@,
                self.xmin == old(self).xmin,
                self.xmax == old(self).xmax,
                forall|k: int| 0 <= k < i ==> #[trigger] tviews(self.tiers@)[k] == fix_tier(
                    s[k],
                    prefer_first,
                ),
                forall|k: int| i <= k < n ==> #[trigger] tviews(self.tiers@)[k] == s[k],
            decreases n - i,
        {
            let ghost before = self.tiers@;
            let t = self.tiers.remove(i);
            proof {
                assert(tviews(before)[i as int] == before[i as int]@);
                assert(t@ == s[i as int]);
            }
            match t {
                Tier::IntervalTier(mut it) => {
                    it.fix_boundaries(prefer_first);
                    self.tiers.insert(i, Tier::IntervalTier(it));
                },
                Tier::PointTier(pt) => {
                    self.tiers.insert(i, Tier::PointTier(pt));
                },
            }
            proof {
                assert(forall|k: int| 0 <= k < n && k != i ==> self.tiers@[k] == before[k]);
                assert(tviews(self.tiers@)[i as int] == fix_tier(s[i as int], prefer_first));
                assert(forall|k: int| 0 <= k < n && k != i ==> #[trigger] tviews(self.tiers@)[k]
                    == tviews(before)[k]);
            }
            i = i + 1;
        }
    }

    /// Fills the gaps of every interval tier with the given label; point
    /// tiers are left alone.
    pub fn fill_gaps(&mut self, text: &str)
        ensures
            final(self).name@ == old(self).name@,
            final(self).xmin == old(self).xmin,
            final(self).xmax == old(self).xmax,
            tviews(final(self).tiers@).len() == old(self).tiers@.len(),
            forall|k: int| 0 <= k < old(self).tiers@.len() ==> tviews(final(self).tiers@)[k]
                == fill_tier(#[trigger] tviews(old(self).tiers@)[k], text@),
    {
        let ghost s = tviews(self.tiers@);
        let n = self.tiers.len();
        let mut i: usize = 0;
        while i < n
            invariant
                n == self.tiers@.len(),
                s.len() == n,
                i <= n,
                self.name@ == old(self).name@,
                self.xmin == old(self).xmin,
                self.xmax == old(self).xmax,
                forall|k: int| 0 <= k < i ==> #[trigger] tviews(self.tiers@)[k] == fill_tier(
                    s[k],
                    text@,
                ),
                forall|k: int| i <= k < n ==> #[trigger] tviews(self.tiers@)[k] == s[k],
            decreases n - i,
        {
            let ghost before = self.tiers@;
            let t = self.tiers.remove(i);
            proof {
                assert(tviews(before)[i as int] == before[i as int]@);
                assert(t@ == s[i as int]);
            }
            match t {
                Tier::IntervalTier(mut it) => {
                    it.fill_gaps(text);
                    self.tiers.insert(i, Tier::IntervalTier(it));
                },
                Tier::PointTier(pt) => {
                    self.tiers.insert(i, Tier::PointTier(pt));
                },
            }
            proof {
                assert(forall|k: int| 0 <= k < n && k != i ==> self.tiers@[k] == before[k]);
                assert(tviews(self.tiers@)[i as int] == fill_tier(s[i as int], text@));
                assert(forall|k: int| 0 <= k < n && k != i ==> #[trigger] tviews(self.tiers@)[k]
                    == tviews(before)[k]);
            }
            i = i + 1;
        }
    }

    /// The descriptive multi-line text for this document.
    pub fn to_text(&self) -> (r: String)
        ensures
            r@ == "TextGrid "@ + self.name@ + ":\n                xmin = "@
                + self.xmin.spec_text() + "\n                xmax = "@ + self.xmax.spec_text()
                + "\n                tier count = "@ + spec_digits(self.tiers@.len()),
    {
        let mut r: String = "TextGrid ".to_owned();
        r.append(self.name.as_str());
        r.append(":\n                xmin = ");
        r.append(self.xmin.to_text().as_str());
        r.append("\n                xmax = ");
        r.append(self.xmax.to_text().as_str());
        r.append("\n                tier count = ");
        r.append(u64_to_string(self.tiers.len() as u64).as_str());
        r
    }
}

/// The views of a sequence of output lines.
pub open spec fn line_views(v: Seq<String>) -> Seq<Seq<char>> {
    v.map_values(|s: String| s@)
}

/// One quoted value: the text between double quotes.
pub open spec fn quoted(t: Seq<char>) -> Seq<char> {
    seq!['"'] + t + seq!['"']
}

/// The compact lines of one interval: start, end, quoted label.
pub open spec fn short_interval_lines(iv: crate::interval::IntervalView) -> Seq<Seq<char>> {
    seq![iv.xmin.spec_text(), iv.xmax.spec_text(), quoted(iv.text)]
}

/// The compact lines of one point: position, quoted mark.
pub open spec fn short_point_lines(p: crate::point::PointView) -> Seq<Seq<char>> {
    seq![p.number.spec_text(), quoted(p.mark)]
}

/// The compact lines of a run of intervals.
pub open spec fn short_intervals_lines(s: Seq<crate::interval::IntervalView>) -> Seq<Seq<char>>
    decreases s.len(),
{
    if s.len() == 0 {
        Seq::empty()
    } else {
        short_interval_lines(s[0]) + short_intervals_lines(s.subrange(1, s.len() as int))
    }
}

/// The compact lines of a run of points.
pub open spec fn short_points_lines(s: Seq<crate::point::PointView>) -> Seq<Seq<char>>
    decreases s.len(),
{
    if s.len() == 0 {
        Seq::empty()
    } else {
        short_point_lines(s[0]) + short_points_lines(s.subrange(1, s.len() as int))
    }
}

/// The compact lines of one tier: quoted kind sentinel, quoted name, the
/// two bounds, the child count recomputed from the actual size, then the
/// children.
pub open spec fn short_tier_lines(t: TierView) -> Seq<Seq<char>> {
    match t {
        TierView::IntervalTier(v) => seq![
            quoted("IntervalTier"@),
            quoted(v.name),
            v.xmin.spec_text(),
            v.xmax.spec_text(),
            spec_digits(v.intervals.len()),
        ] + short_intervals_lines(v.intervals),
        TierView::PointTier(v) => seq![
            quoted("TextTier"@),
            quoted(v.name),
            v.xmin.spec_text(),
            v.xmax.spec_text(),
            spec_digits(v.points.len()),
        ] + short_points_lines(v.points),
    }
}

/// The compact lines of a run of tiers.
pub open spec fn short_tiers_lines(s: Seq<TierView>) -> Seq<Seq<char>>
    decreases s.len(),
{
    if s.len() == 0 {
        Seq::empty()
    } else {
        short_tier_lines(s[0]) + short_tiers_lines(s.subrange(1, s.len() as int))
    }
}

/// The compact layout: the two quoted format identifiers, a blank line,
/// the document bounds, the existence marker, the tier count recomputed
/// from the actual size, then each tier.
pub open spec fn short_lines(d: TextGridView) -> Seq<Seq<char>> {
    seq![
        quoted("ooTextFile"@),
        quoted("TextGrid"@),
        Seq::<char>::empty(),
        d.xmin.spec_text(),
        d.xmax.spec_text(),
        "<exists>"@,
        spec_digits(d.tiers.len()),
    ] + short_tiers_lines(d.tiers)
}

/// Wraps a value in double quotes.
fn quote_str(t: &str) -> (r: String)
    ensures
        r@ == quoted(t@),
{
    let mut r: String = "\"".to_owned();
    r.append(t);
    r.append("\"");
    proof {
        reveal_strlit("\"");
        assert(r@ =~= quoted(t@));
    }
    r
}

impl TextGrid {
    /// Renders the document in the compact layout, one value per line.
    pub fn format_as_short(&self) -> (r: Vec<String>)
        ensures
            line_views(r@) == short_lines(self@),
    {
        let ghost d = self@;
        let mut out: Vec<String> = Vec::new();
        out.push(quote_str("ooTextFile"));
        out.push(quote_str("TextGrid"));
        out.push(String::new());
        out.push(self.xmin.to_text());
        out.push(self.xmax.to_text());
        out.push("<exists>".to_owned());
        out.push(u64_to_string(self.tiers.len() as u64));
        let ghost header = line_views(out@);
        proof {
            assert(header =~= short_lines(d).subrange(0, 7));
            assert(short_lines(d).subrange(0, 7) + short_tiers_lines(d.tiers) =~= short_lines(d));
            assert(d.tiers.subrange(0, d.tiers.len() as int) =~= d.tiers);
        }
        let n = self.tiers.len();
        let mut i: usize = 0;
        while i < n
            invariant
                n == self.tiers@.len(),
                d == self@,
                d.tiers.len() == n,
                i <= n,
                line_views(out@) + short_tiers_lines(d.tiers.subrange(i as int, n as int))
                    == short_lines(d),
            decreases n - i,
        {
            let ghost rest = d.tiers.subrange(i as int, n as int);
            let ghost out0 = line_views(out@);
            proof {
                assert(rest[0] == d.tiers[i as int]);
                assert(d.tiers[i as int] == self.tiers@[i as int]@);
            }
            match &self.tiers[i] {
                Tier::IntervalTier(t) => {
                    out.push(quote_str("IntervalTier"));
                    out.push(quote_str(t.name().as_str()));
                    out.push(t.xmin.to_text());
                    out.push(t.xmax.to_text());
                    out.push(u64_to_string(t.intervals.len() as u64));
                    let ghost v = t@;
                    let ghost base = line_views(out@);
                    proof {
                        assert(base =~= out0 + short_tier_lines(rest[0]).subrange(0, 5));
                        assert(v.intervals.subrange(0, v.intervals.len() as int) =~= v.intervals);
                        assert(short_intervals_lines(v.intervals.subrange(0, 0)) =~= Seq::<
                            Seq<char>,
                        >::empty());
                        assert(base + short_intervals_lines(
                            v.intervals.subrange(0, 0),
                        ) =~= base);
                    }
                    let m = t.intervals.len();
                    let mut j: usize = 0;
                    while j < m
                        invariant
                            m == t.intervals@.len(),
                            v == t@,
                            v.intervals.len() == m,
                            j <= m,
                            line_views(out@) == base + short_intervals_lines(
                                v.intervals.subrange(0, j as int),
                            ),
                        decreases m - j,
                    {
                        let ghost lv0 = line_views(out@);
                        out.push(t.intervals[j].xmin.to_text());
                        out.push(t.intervals[j].xmax.to_text());
                        out.push(quote_str(t.intervals[j].text.as_str()));
                        proof {
                            assert(v.intervals[j as int] == t.intervals@[j as int]@);
                            lemma_short_intervals_lines_push(v.intervals, j as int);
                            assert(line_views(out@) =~= lv0 + short_interval_lines(
                                v.intervals[j as int],
                            ));
                            assert(lv0 + short_interval_lines(v.intervals[j as int]) =~= base + (
                            short_intervals_lines(v.intervals.subrange(0, j as int))
                                + short_interval_lines(v.intervals[j as int])));
                            assert(line_views(out@) =~= base + short_intervals_lines(
                                v.intervals.subrange(0, j + 1),
                            ));
                        }
                        j = j + 1;
                    }
                    proof {
                        assert(line_views(out@) =~= out0 + short_tier_lines(rest[0]));
                    }
                },
                Tier::PointTier(t) => {
                    out.push(quote_str("TextTier"));
                    out.push(quote_str(t.name().as_str()));
                    out.push(t.xmin.to_text());
                    out.push(t.xmax.to_text());
                    out.push(u64_to_string(t.points.len() as u64));
                    let ghost v = t@;
                    let ghost base = line_views(out@);
                    proof {
                        assert(base =~= out0 + short_tier_lines(rest[0]).subrange(0, 5));
                        assert(v.points.subrange(0, v.points.len() as int) =~= v.points);
                        assert(short_points_lines(v.points.subrange(0, 0)) =~= Seq::<
                            Seq<char>,
                        >::empty());
                        assert(base + short_points_lines(v.points.subrange(0, 0)) =~= base);
                    }
                    let m = t.points.len();
                    let mut j: usize = 0;
                    while j < m
                        invariant
                            m == t.points@.len(),
                            v == t@,
                            v.points.len() == m,
                            j <= m,
                            line_views(out@) == base + short_points_lines(
                                v.points.subrange(0, j as int),
                            ),
                        decreases m - j,
                    {
                        let ghost lv0 = line_views(out@);
                        out.push(t.points[j].number.to_text());
                        out.push(quote_str(t.points[j].mark.as_str()));
                        proof {
                            assert(v.points[j as int] == t.points@[j as int]@);
                            lemma_short_points_lines_push(v.points, j as int);
                            assert(line_views(out@) =~= lv0 + short_point_lines(
                                v.points[j as int],
                            ));
                            assert(lv0 + short_point_lines(v.points[j as int]) =~= base + (
                            short_points_lines(v.points.subrange(0, j as int)) + short_point_lines(
                                v.points[j as int],
                            )));
                            assert(line_views(out@) =~= base + short_points_lines(
                                v.points.subrange(0, j + 1),
                            ));
                        }
                        j = j + 1;
                    }
                    proof {
                        assert(line_views(out@) =~= out0 + short_tier_lines(rest[0]));
                    }
                },
            }
            i = i + 1;
            proof {
                assert(rest.subrange(1, rest.len() as int) =~= d.tiers.subrange(i as int, n as int));
                assert(short_tiers_lines(rest) == short_tier_lines(rest[0]) + short_tiers_lines(
                    d.tiers.subrange(i as int, n as int),
                ));
                assert(line_views(out@) + short_tiers_lines(
                    d.tiers.subrange(i as int, n as int),
                ) =~= out0 + short_tiers_lines(rest));
            }
        }
        proof {
            assert(d.tiers.subrange(n as int, n as int) =~= Seq::<TierView>::empty());
            assert(short_tiers_lines(d.tiers.subrange(n as int, n as int)) == Seq::<
                Seq<char>,
            >::empty());
            assert(line_views(out@) + Seq::<Seq<char>>::empty() =~= line_views(out@));
        }
        out
    }
}

/// A one-step unfolding of the interval line run at a split point.
proof fn lemma_short_intervals_lines_push(s: Seq<crate::interval::IntervalView>, j: int)
    requires
        0 <= j < s.len(),
    ensures
        short_intervals_lines(s.subrange(0, j + 1)) == short_intervals_lines(s.subrange(0, j))
            + short_interval_lines(s[j]),
    decreases j,
{
    if j == 0 {
        assert(s.subrange(0, 1)[0] == s[0]);
        assert(s.subrange(0, 1).subrange(1, 1) =~= Seq::<crate::interval::IntervalView>::empty());
        assert(s.subrange(0, 0) =~= Seq::<crate::interval::IntervalView>::empty());
        assert(short_intervals_lines(s.subrange(0, 1)) == short_interval_lines(s.subrange(0, 1)[0])
            + short_intervals_lines(s.subrange(0, 1).subrange(1, 1)));
        assert(short_intervals_lines(Seq::<crate::interval::IntervalView>::empty()) == Seq::<
            Seq<char>,
        >::empty());
        assert(short_interval_lines(s[0]) + Seq::<Seq<char>>::empty() =~= short_interval_lines(
            s[0],
        ));
        assert(short_intervals_lines(Seq::<crate::interval::IntervalView>::empty())
            + short_interval_lines(s[0]) =~= short_interval_lines(s[0]));
        assert(short_intervals_lines(s.subrange(0, 0)) + short_interval_lines(s[0]) =~=
            short_interval_lines(s[0]));
    } else {
        let t = s.subrange(1, s.len() as int);
        lemma_short_intervals_lines_push(t, j - 1);
        assert(s.subrange(0, j + 1)[0] == s[0]);
        assert(s.subrange(0, j + 1).subrange(1, j + 1) =~= t.subrange(0, j));
        assert(s.subrange(0, j).subrange(1, j) =~= t.subrange(0, j - 1));
        assert(s.subrange(0, j)[0] == s[0]);
        assert(t[j - 1] == s[j]);
        assert(short_intervals_lines(s.subrange(0, j + 1)) =~= short_interval_lines(s[0])
            + short_intervals_lines(t.subrange(0, j)));
        assert(short_intervals_lines(s.subrange(0, j)) =~= short_interval_lines(s[0])
            + short_intervals_lines(t.subrange(0, j - 1)));
        assert(short_interval_lines(s[0]) + (short_intervals_lines(t.subrange(0, j - 1))
            + short_interval_lines(t[j - 1])) =~= (short_interval_lines(s[0])
            + short_intervals_lines(t.subrange(0, j - 1))) + short_interval_lines(t[j - 1]));
    }
}

/// A one-step unfolding of the point line run at a split point.
proof fn lemma_short_points_lines_push(s: Seq<crate::point::PointView>, j: int)
    requires
        0 <= j < s.len(),
    ensures
        short_points_lines(s.subrange(0, j + 1)) == short_points_lines(s.subrange(0, j))
            + short_point_lines(s[j]),
    decreases j,
{
    if j == 0 {
        assert(s.subrange(0, 1)[0] == s[0]);
        assert(s.subrange(0, 1).subrange(1, 1) =~= Seq::<crate::point::PointView>::empty());
        assert(s.subrange(0, 0) =~= Seq::<crate::point::PointView>::empty());
        assert(short_points_lines(s.subrange(0, 1)) == short_point_lines(s.subrange(0, 1)[0])
            + short_points_lines(s.subrange(0, 1).subrange(1, 1)));
        assert(short_points_lines(Seq::<crate::point::PointView>::empty()) == Seq::<
            Seq<char>,
        >::empty());
        assert(short_point_lines(s[0]) + Seq::<Seq<char>>::empty() =~= short_point_lines(s[0]));
        assert(short_points_lines(Seq::<crate::point::PointView>::empty()) + short_point_lines(
            s[0],
        ) =~= short_point_lines(s[0]));
        assert(short_points_lines(s.subrange(0, 0)) + short_point_lines(s[0]) =~= short_point_lines(
            s[0],
        ));
    } else {
        let t = s.subrange(1, s.len() as int);
        lemma_short_points_lines_push(t, j - 1);
        assert(s.subrange(0, j + 1)[0] == s[0]);
        assert(s.subrange(0, j + 1).subrange(1, j + 1) =~= t.subrange(0, j));
        assert(s.subrange(0, j).subrange(1, j) =~= t.subrange(0, j - 1));
        assert(s.subrange(0, j)[0] == s[0]);
        assert(t[j - 1] == s[j]);
        assert(short_points_lines(s.subrange(0, j + 1)) =~= short_point_lines(s[0])
            + short_points_lines(t.subrange(0, j)));
        assert(short_points_lines(s.subrange(0, j)) =~= short_point_lines(s[0])
            + short_points_lines(t.subrange(0, j - 1)));
        assert(short_point_lines(s[0]) + (short_points_lines(t.subrange(0, j - 1))
            + short_point_lines(t[j - 1])) =~= (short_point_lines(s[0]) + short_points_lines(
            t.subrange(0, j - 1),
        )) + short_point_lines(t[j - 1]));
    }
}

/// The verbose lines of one interval, with its one-based index.
pub open spec fn long_interval_lines(iv: crate::interval::IntervalView, idx: nat) -> Seq<
    Seq<char>,
> {
    seq![
        "\t\tintervals ["@ + spec_digits(idx) + "]:"@,
        "\t\t\txmin = "@ + iv.xmin.spec_text(),
        "\t\t\txmax = "@ + iv.xmax.spec_text(),
        "\t\t\ttext = "@ + quoted(iv.text),
    ]
}

/// The verbose lines of one point, with its one-based index.
pub open spec fn long_point_lines(p: crate::point::PointView, idx: nat) -> Seq<Seq<char>> {
    seq![
        "\t\tpoints ["@ + spec_digits(idx) + "]:"@,
        "\t\t\tnumber = "@ + p.number.spec_text(),
        "\t\t\tmark = "@ + quoted(p.mark),
    ]
}

/// The verbose lines of a run of intervals numbered from `idx`.
pub open spec fn long_intervals_lines(s: Seq<crate::interval::IntervalView>, idx: nat) -> Seq<
    Seq<char>,
>
    decreases s.len(),
{
    if s.len() == 0 {
        Seq::empty()
    } else {
        long_interval_lines(s[0], idx) + long_intervals_lines(
            s.subrange(1, s.len() as int),
            idx + 1,
        )
    }
}

/// The verbose lines of a run of points numbered from `idx`.
pub open spec fn long_points_lines(s: Seq<crate::point::PointView>, idx: nat) -> Seq<Seq<char>>
    decreases s.len(),
{
    if s.len() == 0 {
        Seq::empty()
    } else {
        long_point_lines(s[0], idx) + long_points_lines(s.subrange(1, s.len() as int), idx + 1)
    }
}

/// The verbose lines of one tier, with its one-based index: the item
/// header, the class, name and bounds with field labels, the child count
/// recomputed from the actual size, then the children.
pub open spec fn long_tier_lines(t: TierView, idx: nat) -> Seq<Seq<char>> {
    match t {
        TierView::IntervalTier(v) => seq![
            "\titem ["@ + spec_digits(idx) + "]:"@,
            "\t\tclass = \"IntervalTier\""@,
            "\t\tname = "@ + quoted(v.name),
            "\t\txmin = "@ + v.xmin.spec_text(),
            "\t\txmax = "@ + v.xmax.spec_text(),
            "\t\tintervals: size = "@ + spec_digits(v.intervals.len()),
        ] + long_intervals_lines(v.intervals, 1),
        TierView::PointTier(v) => seq![
            "\titem ["@ + spec_digits(idx) + "]:"@,
            "\t\tclass = \"TextTier\""@,
            "\t\tname = "@ + quoted(v.name),
            "\t\txmin = "@ + v.xmin.spec_text(),
            "\t\txmax = "@ + v.xmax.spec_text(),
            "\t\tpoints: size = "@ + spec_digits(v.points.len()),
        ] + long_points_lines(v.points, 1),
    }
}

/// The verbose lines of a run of tiers numbered from `idx`.
pub open spec fn long_tiers_lines(s: Seq<TierView>, idx: nat) -> Seq<Seq<char>>
    decreases s.len(),
{
    if s.len() == 0 {
        Seq::empty()
    } else {
        long_tier_lines(s[0], idx) + long_tiers_lines(s.subrange(1, s.len() as int), idx + 1)
    }
}

/// The verbose layout: the fixed header naming the format, a blank line,
/// the labelled document bounds, the existence marker, the tier count
/// recomputed from the actual size, the item header, then each tier.
pub open spec fn long_lines(d: TextGridView) -> Seq<Seq<char>> {
    seq![
        "File type = \"ooTextFile\""@,
        "Object class = \"TextGrid\""@,
        Seq::<char>::empty(),
        "xmin = "@ + d.xmin.spec_text(),
        "xmax = "@ + d.xmax.spec_text(),
        "tiers? <exists>"@,
        "size = "@ + spec_digits(d.tiers.len()),
        "item []:"@,
    ] + long_tiers_lines(d.tiers, 1)
}

/// Concatenates a label, a rendered value, and a closing text.
fn labelled(prefix: &str, value: &str, suffix: &str) -> (r: String)
    ensures
        r@ == prefix@ + value@ + suffix@,
{
    let mut r: String = prefix.to_owned();
    r.append(value);
    r.append(suffix);
    r
}

impl TextGrid {
    /// Renders the document in the verbose layout, with field labels,
    /// indices and indentation.
    pub fn format_as_long(&self) -> (r: Vec<String>)
        ensures
            line_views(r@) == long_lines(self@),
    {
        let ghost d = self@;
        let mut out: Vec<String> = Vec::new();
        out.push("File type = \"ooTextFile\"".to_owned());
        out.push("Object class = \"TextGrid\"".to_owned());
        out.push(String::new());
        out.push(labelled("xmin = ", self.xmin.to_text().as_str(), ""));
        out.push(labelled("xmax = ", self.xmax.to_text().as_str(), ""));
        out.push("tiers? <exists>".to_owned());
        out.push(labelled("size = ", u64_to_string(self.tiers.len() as u64).as_str(), ""));
        out.push("item []:".to_owned());
        proof {
            reveal_strlit("");
            assert(line_views(out@) =~= long_lines(d).subrange(0, 8));
            assert(long_lines(d).subrange(0, 8) + long_tiers_lines(d.tiers, 1) =~= long_lines(d));
            assert(d.tiers.subrange(0, d.tiers.len() as int) =~= d.tiers);
        }
        let n = self.tiers.len();
        let mut i: usize = 0;
        while i < n
            invariant
                n == self.tiers@.len(),
                d == self@,
                d.tiers.len() == n,
                i <= n,
                line_views(out@) + long_tiers_lines(
                    d.tiers.subrange(i as int, n as int),
                    i as nat + 1,
                ) == long_lines(d),
            decreases n - i,
        {
            let ghost rest = d.tiers.subrange(i as int, n as int);
            let ghost out0 = line_views(out@);
            proof {
                assert(rest[0] == d.tiers[i as int]);
                assert(d.tiers[i as int] == self.tiers@[i as int]@);
            }
            let idx_text = crate::decimal::u128_to_string((i as u128) + 1);
            match &self.tiers[i] {
                Tier::IntervalTier(t) => {
                    out.push(labelled("\titem [", idx_text.as_str(), "]:"));
                    out.push("\t\tclass = \"IntervalTier\"".to_owned());
                    out.push(labelled("\t\tname = ", quote_str(t.name().as_str()).as_str(), ""));
                    out.push(labelled("\t\txmin = ", t.xmin.to_text().as_str(), ""));
                    out.push(labelled("\t\txmax = ", t.xmax.to_text().as_str(), ""));
                    out.push(
                        labelled(
                            "\t\tintervals: size = ",
                            u64_to_string(t.intervals.len() as u64).as_str(),
                            "",
                        ),
                    );
                    let ghost v = t@;
                    let ghost base = line_views(out@);
                    proof {
                        reveal_strlit("");
                        assert(base =~= out0 + long_tier_lines(rest[0], i as nat + 1).subrange(
                            0,
                            6,
                        ));
                        assert(v.intervals.subrange(0, v.intervals.len() as int) =~= v.intervals);
                        assert(long_intervals_lines(v.intervals.subrange(0, 0), 1) =~= Seq::<
                            Seq<char>,
                        >::empty());
                        assert(base + long_intervals_lines(v.intervals.subrange(0, 0), 1) =~= base);
                    }
                    let m = t.intervals.len();
                    let mut j: usize = 0;
                    while j < m
                        invariant
                            m == t.intervals@.len(),
                            v == t@,
                            v.intervals.len() == m,
                            j <= m,
                            line_views(out@) == base + long_intervals_lines(
                                v.intervals.subrange(0, j as int),
                                1,
                            ),
                        decreases m - j,
                    {
                        let ghost lv0 = line_views(out@);
                        let cidx = crate::decimal::u128_to_string((j as u128) + 1);
                        out.push(labelled("\t\tintervals [", cidx.as_str(), "]:"));
                        out.push(
                            labelled("\t\t\txmin = ", t.intervals[j].xmin.to_text().as_str(), ""),
                        );
                        out.push(
                            labelled("\t\t\txmax = ", t.intervals[j].xmax.to_text().as_str(), ""),
                        );
                        out.push(
                            labelled(
                                "\t\t\ttext = ",
                                quote_str(t.intervals[j].text.as_str()).as_str(),
                                "",
                            ),
                        );
                        proof {
                            reveal_strlit("");
                            assert(v.intervals[j as int] == t.intervals@[j as int]@);
                            lemma_long_intervals_lines_push(v.intervals, j as int, 1);
                            assert(line_views(out@) =~= lv0 + long_interval_lines(
                                v.intervals[j as int],
                                j as nat + 1,
                            ));
                            assert(lv0 + long_interval_lines(v.intervals[j as int], j as nat + 1)
                                =~= base + (long_intervals_lines(
                                v.intervals.subrange(0, j as int),
                                1,
                            ) + long_interval_lines(v.intervals[j as int], j as nat + 1)));
                            assert(line_views(out@) =~= base + long_intervals_lines(
                                v.intervals.subrange(0, j + 1),
                                1,
                            ));
                        }
                        j = j + 1;
                    }
                    proof {
                        assert(line_views(out@) =~= out0 + long_tier_lines(rest[0], i as nat + 1));
                    }
                },
                Tier::PointTier(t) => {
                    out.push(labelled("\titem [", idx_text.as_str(), "]:"));
                    out.push("\t\tclass = \"TextTier\"".to_owned());
                    out.push(labelled("\t\tname = ", quote_str(t.name().as_str()).as_str(), ""));
                    out.push(labelled("\t\txmin = ", t.xmin.to_text().as_str(), ""));
                    out.push(labelled("\t\txmax = ", t.xmax.to_text().as_str(), ""));
                    out.push(
                        labelled(
                            "\t\tpoints: size = ",
                            u64_to_string(t.points.len() as u64).as_str(),
                            "",
                        ),
                    );
                    let ghost v = t@;
                    let ghost base = line_views(out@);
                    proof {
                        reveal_strlit("");
                        assert(base =~= out0 + long_tier_lines(rest[0], i as nat + 1).subrange(
                            0,
                            6,
                        ));
                        assert(v.points.subrange(0, v.points.len() as int) =~= v.points);
                        assert(long_points_lines(v.points.subrange(0, 0), 1) =~= Seq::<
                            Seq<char>,
                        >::empty());
                        assert(base + long_points_lines(v.points.subrange(0, 0), 1) =~= base);
                    }
                    let m = t.points.len();
                    let mut j: usize = 0;
                    while j < m
                        invariant
                            m == t.points@.len(),
                            v == t@,
                            v.points.len() == m,
                            j <= m,
                            line_views(out@) == base + long_points_lines(
                                v.points.subrange(0, j as int),
                                1,
                            ),
                        decreases m - j,
                    {
                        let ghost lv0 = line_views(out@);
                        let cidx = crate::decimal::u128_to_string((j as u128) + 1);
                        out.push(labelled("\t\tpoints [", cidx.as_str(), "]:"));
                        out.push(
                            labelled(
                                "\t\t\tnumber = ",
                                t.points[j].number.to_text().as_str(),
                                "",
                            ),
                        );
                        out.push(
                            labelled(
                                "\t\t\tmark = ",
                                quote_str(t.points[j].mark.as_str()).as_str(),
                                "",
                            ),
                        );
                        proof {
                            reveal_strlit("");
                            assert(v.points[j as int] == t.points@[j as int]@);
                            lemma_long_points_lines_push(v.points, j as int, 1);
                            assert(line_views(out@) =~= lv0 + long_point_lines(
                                v.points[j as int],
                                j as nat + 1,
                            ));
                            assert(lv0 + long_point_lines(v.points[j as int], j as nat + 1) =~= base
                                + (long_points_lines(v.points.subrange(0, j as int), 1)
                                + long_point_lines(v.points[j as int], j as nat + 1)));
                            assert(line_views(out@) =~= base + long_points_lines(
                                v.points.subrange(0, j + 1),
                                1,
                            ));
                        }
                        j = j + 1;
                    }
                    proof {
                        assert(line_views(out@) =~= out0 + long_tier_lines(rest[0], i as nat + 1));
                    }
                },
            }
            i = i + 1;
            proof {
                assert(rest.subrange(1, rest.len() as int) =~= d.tiers.subrange(i as int, n as int));
                assert(long_tiers_lines(rest, (i - 1) as nat + 1) == long_tier_lines(
                    rest[0],
                    (i - 1) as nat + 1,
                ) + long_tiers_lines(d.tiers.subrange(i as int, n as int), i as nat + 1));
                assert(line_views(out@) + long_tiers_lines(
                    d.tiers.subrange(i as int, n as int),
                    i as nat + 1,
                ) =~= out0 + long_tiers_lines(rest, (i - 1) as nat + 1));
            }
        }
        proof {
            assert(d.tiers.subrange(n as int, n as int) =~= Seq::<TierView>::empty());
            assert(long_tiers_lines(d.tiers.subrange(n as int, n as int), n as nat + 1) == Seq::<
                Seq<char>,
            >::empty());
            assert(line_views(out@) + Seq::<Seq<char>>::empty() =~= line_views(out@));
        }
        out
    }
}

/// A one-step unfolding of the verbose interval line run at a split point.
proof fn lemma_long_intervals_lines_push(s: Seq<crate::interval::IntervalView>, j: int, idx: nat)
    requires
        0 <= j < s.len(),
    ensures
        long_intervals_lines(s.subrange(0, j + 1), idx) == long_intervals_lines(
            s.subrange(0, j),
            idx,
        ) + long_interval_lines(s[j], (idx + j) as nat),
    decreases j,
{
    if j == 0 {
        assert(s.subrange(0, 1)[0] == s[0]);
        assert(s.subrange(0, 1).subrange(1, 1) =~= Seq::<crate::interval::IntervalView>::empty());
        assert(s.subrange(0, 0) =~= Seq::<crate::interval::IntervalView>::empty());
        assert(long_intervals_lines(s.subrange(0, 1), idx) == long_interval_lines(
            s.subrange(0, 1)[0],
            idx,
        ) + long_intervals_lines(s.subrange(0, 1).subrange(1, 1), idx + 1));
        assert(long_intervals_lines(Seq::<crate::interval::IntervalView>::empty(), idx + 1)
            == Seq::<Seq<char>>::empty());
        assert(long_interval_lines(s[0], idx) + Seq::<Seq<char>>::empty() =~= long_interval_lines(
            s[0],
            idx,
        ));
        assert(long_intervals_lines(Seq::<crate::interval::IntervalView>::empty(), idx)
            + long_interval_lines(s[0], idx) =~= long_interval_lines(s[0], idx));
    } else {
        let t = s.subrange(1, s.len() as int);
        lemma_long_intervals_lines_push(t, j - 1, idx + 1);
        assert(s.subrange(0, j + 1)[0] == s[0]);
        assert(s.subrange(0, j + 1).subrange(1, j + 1) =~= t.subrange(0, j));
        assert(s.subrange(0, j).subrange(1, j) =~= t.subrange(0, j - 1));
        assert(s.subrange(0, j)[0] == s[0]);
        assert(t[j - 1] == s[j]);
        assert(long_intervals_lines(s.subrange(0, j + 1), idx) =~= long_interval_lines(s[0], idx)
            + long_intervals_lines(t.subrange(0, j), idx + 1));
        assert(long_intervals_lines(s.subrange(0, j), idx) =~= long_interval_lines(s[0], idx)
            + long_intervals_lines(t.subrange(0, j - 1), idx + 1));
        assert(long_interval_lines(s[0], idx) + (long_intervals_lines(t.subrange(0, j - 1), idx + 1)
            + long_interval_lines(t[j - 1], ((idx + 1) + (j - 1)) as nat)) =~= (long_interval_lines(s[0], idx)
            + long_intervals_lines(t.subrange(0, j - 1), idx + 1)) + long_interval_lines(
            t[j - 1],
            (idx + j) as nat,
        ));
    }
}

/// A one-step unfolding of the verbose point line run at a split point.
proof fn lemma_long_points_lines_push(s: Seq<crate::point::PointView>, j: int, idx: nat)
    requires
        0 <= j < s.len(),
    ensures
        long_points_lines(s.subrange(0, j + 1), idx) == long_points_lines(s.subrange(0, j), idx)
            + long_point_lines(s[j], (idx + j) as nat),
    decreases j,
{
    if j == 0 {
        assert(s.subrange(0, 1)[0] == s[0]);
        assert(s.subrange(0, 1).subrange(1, 1) =~= Seq::<crate::point::PointView>::empty());
        assert(s.subrange(0, 0) =~= Seq::<crate::point::PointView>::empty());
        assert(long_points_lines(s.subrange(0, 1), idx) == long_point_lines(
            s.subrange(0, 1)[0],
            idx,
        ) + long_points_lines(s.subrange(0, 1).subrange(1, 1), idx + 1));
        assert(long_points_lines(Seq::<crate::point::PointView>::empty(), idx + 1) == Seq::<
            Seq<char>,
        >::empty());
        assert(long_point_lines(s[0], idx) + Seq::<Seq<char>>::empty() =~= long_point_lines(
            s[0],
            idx,
        ));
        assert(long_points_lines(Seq::<crate::point::PointView>::empty(), idx) + long_point_lines(
            s[0],
            idx,
        ) =~= long_point_lines(s[0], idx));
    } else {
        let t = s.subrange(1, s.len() as int);
        lemma_long_points_lines_push(t, j - 1, idx + 1);
        assert(s.subrange(0, j + 1)[0] == s[0]);
        assert(s.subrange(0, j + 1).subrange(1, j + 1) =~= t.subrange(0, j));
        assert(s.subrange(0, j).subrange(1, j) =~= t.subrange(0, j - 1));
        assert(s.subrange(0, j)[0] == s[0]);
        assert(t[j - 1] == s[j]);
        assert(long_points_lines(s.subrange(0, j + 1), idx) =~= long_point_lines(s[0], idx)
            + long_points_lines(t.subrange(0, j), idx + 1));
        assert(long_points_lines(s.subrange(0, j), idx) =~= long_point_lines(s[0], idx)
            + long_points_lines(t.subrange(0, j - 1), idx + 1));
        assert(long_point_lines(s[0], idx) + (long_points_lines(t.subrange(0, j - 1), idx + 1)
            + long_point_lines(t[j - 1], ((idx + 1) + (j - 1)) as nat)) =~= (long_point_lines(s[0], idx)
            + long_points_lines(t.subrange(0, j - 1), idx + 1)) + long_point_lines(
            t[j - 1],
            (idx + j) as nat,
        ));
    }
}

/// Character-for-character equality of a string and a slice./// Character-for-character equality of a string and a slice./// Character-for-character equality of a string and a slice./// Character-for-character equality of a string and a slice./// Character-for-character equality of a string and a slice.
pub fn string_eq_str(a: &String, b: &str) -> (r: bool)
    ensures
        r == (a@ == b@),
{
    let al = a.as_str().unicode_len();
    let bl = b.unicode_len();
    if al != bl {
        proof {
            assert(a@ != b@) by {
                if a@ == b@ {
                    assert(a@.len() == b@.len());
                }
            }
        }
        return false;
    }
    let mut i: usize = 0;
    while i < al
        invariant
            al == a@.len(),
            al == b@.len(),
            i <= al,
            forall|k: int| 0 <= k < i ==> a@[k] == b@[k],
        decreases al - i,
    {
        if a.as_str().get_char(i) != b.get_char(i) {
            proof {
                assert(a@[i as int] != b@[i as int]);
            }
            return false;
        }
        i = i + 1;
    }
    proof {
        assert(a@ =~= b@);
    }
    true
}

} // verus!
