//! Point tiers: discrete labelled time points.

use crate::decimal::{lemma_le_total, lemma_le_trans, Decimal};
use crate::warning::Warning;
use vstd::prelude::*;

verus! {

/// The mathematical content of a point: its position and mark text.
pub ghost struct PointView {
    pub number: Decimal,
    pub mark: Seq<char>,
}

/// A labelled time point.
#[derive(Debug)]
pub struct Point {
    pub number: Decimal,
    pub mark: String,
}

impl View for Point {
    type V = PointView;

    open spec fn view(&self) -> PointView {
        PointView { number: self.number, mark: self.mark@ }
    }
}

impl Clone for Point {
    fn clone(&self) -> (r: Self)
        ensures
            r@ == self@,
    {
        Point { number: self.number, mark: self.mark.clone() }
    }
}

impl Point {
    pub fn new(number: Decimal, mark: String) -> (r: Point)
        ensures
            r@.number == number,
            r@.mark == mark@,
    {
        Point { number, mark }
    }

    pub fn number(&self) -> (r: &Decimal)
        ensures
            *r == self.number,
    {
        &self.number
    }

    pub fn mark(&self) -> (r: &String)
        ensures
            r@ == self@.mark,
    {
        &self.mark
    }

    pub fn set_number(&mut self, number: Decimal)
        ensures
            final(self)@ == (PointView { number, ..old(self)@ }),
    {
        self.number = number;
    }

    pub fn set_mark(&mut self, mark: String)
        ensures
            final(self)@ == (PointView { mark: mark@, ..old(self)@ }),
    {
        self.mark = mark;
    }

    /// The descriptive one-line text for this point.
    pub fn to_text(&self) -> (r: String)
        ensures
            r@ == "Point:\t"@ + self.number.spec_text() + "\t"@ + self@.mark + "\n"@,
    {
        let mut r: String = "Point:\t".to_owned();
        r.append(self.number.to_text().as_str());
        r.append("\t");
        r.append(self.mark.as_str());
        r.append("\n");
        r
    }
}

/// The views of a sequence of points.
pub open spec fn pvals(s: Seq<Point>) -> Seq<PointView> {
    s.map_values(|p: Point| p@)
}

/// Order of points by their position.
pub open spec fn pval_le(a: PointView, b: PointView) -> bool {
    a.number.spec_le(b.number)
}

/// Sorted by position, every pair.
pub open spec fn points_sorted(s: Seq<PointView>) -> bool {
    forall|i: int, j: int| 0 <= i < j < s.len() ==> pval_le(#[trigger] s[i], #[trigger] s[j])
}

/// Inserts `x` into `s` after every element whose position does not exceed
/// `x`'s: the position a stable sort gives an element arriving last.
pub open spec fn insert_by_number(s: Seq<PointView>, x: PointView) -> Seq<PointView>
    decreases s.len(),
{
    if s.len() > 0 && x.number.spec_lt(s.last().number) {
        insert_by_number(s.drop_last(), x).push(s.last())
    } else {
        s.push(x)
    }
}

/// The stable sort of points by their position.
pub open spec fn sort_by_number(s: Seq<PointView>) -> Seq<PointView>
    decreases s.len(),
{
    if s.len() == 0 {
        Seq::empty()
    } else {
        insert_by_number(sort_by_number(s.drop_last()), s.last())
    }
}

pub proof fn lemma_insert_by_number_props(s: Seq<PointView>, x: PointView)
    requires
        points_sorted(s),
    ensures
        points_sorted(insert_by_number(s, x)),
        insert_by_number(s, x).to_multiset() == s.to_multiset().insert(x),
        insert_by_number(s, x).len() == s.len() + 1,
    decreases s.len(),
{
    broadcast use vstd::seq_lib::group_to_multiset_ensures;

    if s.len() > 0 && x.number.spec_lt(s.last().number) {
        assert(points_sorted(s.drop_last()));
        lemma_insert_by_number_props(s.drop_last(), x);
        let t = insert_by_number(s.drop_last(), x);
        assert forall|i: int| 0 <= i < t.len() implies pval_le(t[i], s.last()) by {
            lemma_le_total(x.number, s.last().number);
            lemma_insert_number_membership(s.drop_last(), x, i);
            if t[i] == x {
            } else {
                let j = choose|j: int| 0 <= j < s.len() - 1 && s.drop_last()[j] == t[i];
                assert(pval_le(s[j], s.last()));
            }
        }
        assert(points_sorted(t.push(s.last()))) by {
            assert forall|i: int, j: int|
                0 <= i < j < t.push(s.last()).len() implies pval_le(
                #[trigger] t.push(s.last())[i],
                #[trigger] t.push(s.last())[j],
            ) by {
                if j < t.len() {
                    assert(pval_le(t[i], t[j]));
                }
            }
        }
        assert(s.drop_last().to_multiset().insert(s.last()) == s.to_multiset()) by {
            assert(s.drop_last().push(s.last()) =~= s);
        }
        assert(t.push(s.last()).to_multiset() == t.to_multiset().insert(s.last()));
        assert(s.to_multiset().insert(x) == s.drop_last().to_multiset().insert(s.last()).insert(x));
        assert(s.drop_last().to_multiset().insert(s.last()).insert(x) == s.drop_last().to_multiset()
            .insert(x).insert(s.last()));
    } else {
        assert(insert_by_number(s, x) == s.push(x));
        if s.len() > 0 {
            assert forall|i: int| 0 <= i < s.len() implies pval_le(s[i], x) by {
                assert(pval_le(s[i], s.last()));
                assert(s.last().number.spec_le(x.number));
                lemma_le_trans(s[i].number, s.last().number, x.number);
            }
        }
        assert(points_sorted(s.push(x))) by {
            assert forall|i: int, j: int|
                0 <= i < j < s.push(x).len() implies pval_le(
                #[trigger] s.push(x)[i],
                #[trigger] s.push(x)[j],
            ) by {
                if j < s.len() {
                    assert(pval_le(s[i], s[j]));
                }
            }
        }
    }
}

/// Every element of an insertion result is the inserted element or one of
/// the sequence's own elements.
proof fn lemma_insert_number_membership(s: Seq<PointView>, x: PointView, i: int)
    requires
        0 <= i < insert_by_number(s, x).len(),
    ensures
        insert_by_number(s, x)[i] == x || exists|j: int|
            0 <= j < s.len() && s[j] == insert_by_number(s, x)[i],
    decreases s.len(),
{
    if s.len() > 0 && x.number.spec_lt(s.last().number) {
        let t = insert_by_number(s.drop_last(), x);
        if i < t.len() {
            lemma_insert_number_membership(s.drop_last(), x, i);
            if t[i] != x {
                let j = choose|j: int| 0 <= j < s.drop_last().len() && s.drop_last()[j] == t[i];
                assert(s[j] == t[i]);
            }
        } else {
            assert(insert_by_number(s, x)[i] == s.last());
            assert(s[s.len() - 1] == s.last());
        }
    } else {
        if i < s.len() {
        } else {
            assert(insert_by_number(s, x)[i] == x);
        }
    }
}

/// The stable sort orders its input and keeps exactly its elements.
pub proof fn lemma_sort_by_number_props(s: Seq<PointView>)
    ensures
        points_sorted(sort_by_number(s)),
        sort_by_number(s).to_multiset() == s.to_multiset(),
        sort_by_number(s).len() == s.len(),
    decreases s.len(),
{
    broadcast use vstd::seq_lib::group_to_multiset_ensures;

    if s.len() > 0 {
        lemma_sort_by_number_props(s.drop_last());
        lemma_insert_by_number_props(sort_by_number(s.drop_last()), s.last());
        assert(s.drop_last().push(s.last()) =~= s);
    }
}

/// Where a stable sort puts a newly arrived element: before the elements it
/// strictly precedes, after everything else.
proof fn lemma_insert_number_position(s: Seq<PointView>, x: PointView, p: int)
    requires
        0 <= p <= s.len(),
        forall|k: int| p <= k < s.len() ==> x.number.spec_lt((#[trigger] s[k]).number),
        p > 0 ==> !x.number.spec_lt(s[p - 1].number),
    ensures
        insert_by_number(s, x) == s.subrange(0, p) + seq![x] + s.subrange(p, s.len() as int),
    decreases s.len(),
{
    if s.len() > p {
        assert(x.number.spec_lt(s.last().number));
        lemma_insert_number_position(s.drop_last(), x, p);
        assert(s.drop_last().subrange(0, p) =~= s.subrange(0, p));
        assert(s.drop_last().subrange(p, s.len() - 1) =~= s.subrange(p, s.len() - 1));
        assert((s.subrange(0, p) + seq![x] + s.subrange(p, s.len() - 1)).push(s.last()) =~= s
            .subrange(0, p) + seq![x] + s.subrange(p, s.len() as int));
    } else {
        if s.len() > 0 {
            assert(!x.number.spec_lt(s.last().number));
        }
        assert(s.subrange(0, p) =~= s);
        assert(s.subrange(p, s.len() as int) =~= Seq::<PointView>::empty());
        assert(s.push(x) =~= s.subrange(0, p) + seq![x] + s.subrange(p, s.len() as int));
    }
}

/// Sorts points by their position with a stable insertion sort.
pub fn sort_points(v: &mut Vec<Point>)
    ensures
        pvals(final(v)@) == sort_by_number(pvals(old(v)@)),
{
    let ghost orig = pvals(old(v)@);
    let n = v.len();
    if n <= 1 {
        proof {
            if n == 1 {
                assert(points_sorted(orig));
            }
            lemma_sort_of_sorted_points(orig);
        }
        return ;
    }
    let mut i: usize = 1;
    proof {
        assert(pvals(v@).subrange(0, 1) =~= sort_by_number(orig.subrange(0, 1))) by {
            assert(orig.subrange(0, 1).drop_last() =~= Seq::<PointView>::empty());
            assert(sort_by_number(orig.subrange(0, 1)) == insert_by_number(
                sort_by_number(Seq::empty()),
                orig.subrange(0, 1).last(),
            ));
            assert(sort_by_number(Seq::<PointView>::empty()) =~= Seq::<PointView>::empty());
            assert(orig.subrange(0, 1).last() == orig[0]);
            assert(insert_by_number(Seq::empty(), orig[0]) =~= Seq::empty().push(orig[0]));
        }
        assert(pvals(v@).subrange(1, n as int) =~= orig.subrange(1, n as int));
    }
    while i < n
        invariant
            n == v.len(),
            orig.len() == n,
            1 <= i <= n,
            pvals(v@).subrange(0, i as int) == sort_by_number(orig.subrange(0, i as int)),
            pvals(v@).subrange(i as int, n as int) == orig.subrange(i as int, n as int),
        decreases n - i,
    {
        let ghost prefix = pvals(v@).subrange(0, i as int);
        let ghost x = v@[i as int]@;
        proof {
            lemma_sort_by_number_props(orig.subrange(0, i as int));
            assert(points_sorted(prefix));
            assert(x == pvals(v@)[i as int]);
            assert(pvals(v@).subrange(i as int, n as int)[0] == pvals(v@)[i as int]);
            assert(orig.subrange(i as int, n as int)[0] == orig[i as int]);
            assert(x == orig[i as int]);
        }
        let mut j: usize = i;
        while j > 0 && v[i].number.lt(&v[j - 1].number)
            invariant
                n == v.len(),
                orig.len() == n,
                0 < i < n,
                0 <= j <= i,
                points_sorted(prefix),
                pvals(v@).subrange(0, i as int) == prefix,
                x == v@[i as int]@,
                forall|k: int| j <= k < i ==> x.number.spec_lt((#[trigger] prefix[k]).number),
            decreases j,
        {
            proof {
                assert(prefix[j - 1] == pvals(v@).subrange(0, i as int)[j - 1]);
                assert(prefix[j - 1].number == v@[j - 1].number);
            }
            j = j - 1;
        }
        proof {
            if j > 0 {
                assert(prefix[j - 1].number == v@[j - 1].number);
            }
            lemma_insert_number_position(prefix, x, j as int);
        }
        // move the element at `i` into position `j`, shifting the ones
        // between up by one
        let ghost before = v@;
        let moved = v.remove(i);
        v.insert(j, moved);
        proof {
            assert(moved@ == x);
            assert(v@ =~= before.subrange(0, j as int) + seq![moved] + before.subrange(
                j as int,
                i as int,
            ) + before.subrange(i + 1, n as int));
            assert forall|k: int| 0 <= k < n implies #[trigger] pvals(v@)[k] == v@[k]@ by {}
            assert(pvals(v@).subrange(0, i + 1) =~= prefix.subrange(0, j as int) + seq![x]
                + prefix.subrange(j as int, prefix.len() as int)) by {
                assert(forall|k: int| 0 <= k < i ==> #[trigger] prefix[k] == pvals(before)[k]);
                assert(forall|k: int| 0 <= k < i ==> #[trigger] prefix[k] == before[k]@);
            }
            assert(pvals(v@).subrange(0, i + 1) == insert_by_number(prefix, x));
            assert(prefix == sort_by_number(orig.subrange(0, i as int)));
            assert(orig.subrange(0, i + 1).drop_last() =~= orig.subrange(0, i as int));
            assert(orig.subrange(0, i + 1).last() == orig[i as int]);
            assert(sort_by_number(orig.subrange(0, i + 1)) == insert_by_number(prefix, x));
            assert(pvals(v@).subrange(i + 1, n as int) =~= orig.subrange(i + 1, n as int)) by {
                assert(forall|k: int| i + 1 <= k < n ==> v@[k] == before[k]);
                assert(forall|k: int| i <= k < n ==> #[trigger] orig[k] == pvals(before).subrange(
                    i as int,
                    n as int,
                )[k - i]);
                assert(forall|k: int| i <= k < n ==> orig[k] == before[k]@);
            }
        }
        i = i + 1;
    }
    proof {
        assert(pvals(v@).subrange(0, n as int) =~= pvals(v@));
        assert(orig.subrange(0, n as int) =~= orig);
    }
}

/// Sorting an already ordered sequence changes nothing.
pub proof fn lemma_sort_of_sorted_points(s: Seq<PointView>)
    requires
        points_sorted(s),
    ensures
        sort_by_number(s) == s,
    decreases s.len(),
{
    if s.len() > 0 {
        assert(points_sorted(s.drop_last()));
        lemma_sort_of_sorted_points(s.drop_last());
        let p = s.drop_last();
        if p.len() > 0 {
            assert(pval_le(s[p.len() - 1], s[s.len() - 1]));
            assert(!s.last().number.spec_lt(p.last().number));
        }
        assert(insert_by_number(p, s.last()) == p.push(s.last()));
        assert(p.push(s.last()) =~= s);
    } else {
        assert(sort_by_number(s) =~= s);
    }
}

/// The duplicate index pairs found in row `i` from column `j` on: each
/// `(i, j)` with `i != j` whose points share a position.
pub open spec fn dup_pairs_row(s: Seq<PointView>, i: nat, j: nat) -> Seq<(u64, u64)>
    decreases s.len() - j,
{
    if j >= s.len() {
        Seq::empty()
    } else if i != j && s[i as int].number.same_value(s[j as int].number) {
        seq![(i as u64, j as u64)] + dup_pairs_row(s, i, j + 1)
    } else {
        dup_pairs_row(s, i, j + 1)
    }
}

/// The duplicate index pairs from row `i` on.
pub open spec fn dup_pairs_from(s: Seq<PointView>, i: nat) -> Seq<(u64, u64)>
    decreases s.len() - i,
{
    if i >= s.len() {
        Seq::empty()
    } else {
        dup_pairs_row(s, i, 0) + dup_pairs_from(s, i + 1)
    }
}

/// Every ordered pair of distinct indices holding the same position, in
/// row-major order: an unordered duplicate appears once in each order.
pub open spec fn dup_pairs(s: Seq<PointView>) -> Seq<(u64, u64)> {
    dup_pairs_from(s, 0)
}

proof fn lemma_dup_pairs_row_contains(s: Seq<PointView>, i: nat, j0: nat, j: nat)
    requires
        j0 <= j < s.len(),
        i < s.len(),
        i != j,
        s[i as int].number.same_value(s[j as int].number),
    ensures
        dup_pairs_row(s, i, j0).contains((i as u64, j as u64)),
    decreases s.len() - j0,
{
    if j0 == j {
        assert(dup_pairs_row(s, i, j0)[0] == (i as u64, j as u64));
    } else {
        lemma_dup_pairs_row_contains(s, i, j0 + 1, j);
        let t = dup_pairs_row(s, i, j0 + 1);
        let k = choose|k: int| 0 <= k < t.len() && t[k] == (i as u64, j as u64);
        if i != j0 && s[i as int].number.same_value(s[j0 as int].number) {
            assert(dup_pairs_row(s, i, j0)[k + 1] == (i as u64, j as u64));
        }
    }
}

proof fn lemma_dup_pairs_row_empty(s: Seq<PointView>, i: nat, j0: nat)
    requires
        i < s.len(),
        forall|j: int| j0 <= j < s.len() && i != j ==> !s[i as int].number.same_value(
            (#[trigger] s[j]).number,
        ),
    ensures
        dup_pairs_row(s, i, j0).len() == 0,
    decreases s.len() - j0,
{
    if j0 < s.len() {
        lemma_dup_pairs_row_empty(s, i, j0 + 1);
    }
}

proof fn lemma_dup_pairs_from_contains(s: Seq<PointView>, i0: nat, i: nat, j: nat)
    requires
        i0 <= i < s.len(),
        j < s.len(),
        i != j,
        s[i as int].number.same_value(s[j as int].number),
    ensures
        dup_pairs_from(s, i0).contains((i as u64, j as u64)),
    decreases s.len() - i0,
{
    if i0 == i {
        lemma_dup_pairs_row_contains(s, i, 0, j);
        let t = dup_pairs_row(s, i, 0);
        let k = choose|k: int| 0 <= k < t.len() && t[k] == (i as u64, j as u64);
        assert(dup_pairs_from(s, i0)[k] == (i as u64, j as u64));
    } else {
        lemma_dup_pairs_from_contains(s, i0 + 1, i, j);
        let t = dup_pairs_from(s, i0 + 1);
        let k = choose|k: int| 0 <= k < t.len() && t[k] == (i as u64, j as u64);
        let head = dup_pairs_row(s, i0, 0);
        assert(dup_pairs_from(s, i0)[head.len() + k] == (i as u64, j as u64));
    }
}

/// A single duplicate pair is reported twice, once in each index order.
pub proof fn lemma_point_duplicates_both_orders(s: Seq<PointView>, i: nat, j: nat)
    requires
        i < s.len(),
        j < s.len(),
        i != j,
        s[i as int].number.same_value(s[j as int].number),
    ensures
        dup_pairs(s).contains((i as u64, j as u64)),
        dup_pairs(s).contains((j as u64, i as u64)),
{
    lemma_dup_pairs_from_contains(s, 0, i, j);
    assert(s[j as int].number.same_value(s[i as int].number));
    lemma_dup_pairs_from_contains(s, 0, j, i);
}

/// A tier with pairwise distinct positions yields no duplicate pair.
pub proof fn lemma_point_duplicates_none(s: Seq<PointView>)
    requires
        forall|i: int, j: int|
            0 <= i < s.len() && 0 <= j < s.len() && i != j ==> !(#[trigger] s[i]).number.same_value(
                (#[trigger] s[j]).number,
            ),
    ensures
        dup_pairs(s).len() == 0,
{
    lemma_dup_pairs_from_empty(s, 0);
}

proof fn lemma_dup_pairs_from_empty(s: Seq<PointView>, i0: nat)
    requires
        forall|i: int, j: int|
            0 <= i < s.len() && 0 <= j < s.len() && i != j ==> !(#[trigger] s[i]).number.same_value(
                (#[trigger] s[j]).number,
            ),
    ensures
        dup_pairs_from(s, i0).len() == 0,
    decreases s.len() - i0,
{
    if i0 < s.len() {
        lemma_dup_pairs_row_empty(s, i0, 0);
        lemma_dup_pairs_from_empty(s, i0 + 1);
    }
}

/// A point tier: a name, declared bounds, and the owned points.
#[derive(Debug)]
pub struct Tier {
    pub name: String,
    pub xmin: Decimal,
    pub xmax: Decimal,
    pub points: Vec<Point>,
}

impl Clone for Tier {
    fn clone(&self) -> (r: Self)
        ensures
            r.name@ == self.name@,
            r.xmin == self.xmin,
            r.xmax == self.xmax,
            pvals(r.points@) == pvals(self.points@),
    {
        let mut points: Vec<Point> = Vec::new();
        let mut i: usize = 0;
        while i < self.points.len()
            invariant
                i <= self.points.len(),
                points@.len() == i,
                forall|k: int| 0 <= k < i ==> (#[trigger] points@[k])@ == self.points@[k]@,
            decreases self.points.len() - i,
        {
            points.push(self.points[i].clone());
            i = i + 1;
        }
        proof {
            assert(pvals(points@) =~= pvals(self.points@));
        }
        Tier { name: self.name.clone(), xmin: self.xmin, xmax: self.xmax, points }
    }
}

/// The mathematical content of a point tier.
pub ghost struct TierView {
    pub name: Seq<char>,
    pub xmin: Decimal,
    pub xmax: Decimal,
    pub points: Seq<PointView>,
}

impl View for Tier {
    type V = TierView;

    open spec fn view(&self) -> TierView {
        TierView { name: self.name@, xmin: self.xmin, xmax: self.xmax, points: pvals(self.points@) }
    }
}

impl Tier {
    pub fn new(name: String, xmin: Decimal, xmax: Decimal, points: Vec<Point>) -> (r: Tier)
        ensures
            r.name@ == name@,
            r.xmin == xmin,
            r.xmax == xmax,
            r.points@ == points@,
    {
        Tier { name, xmin, xmax, points }
    }

    pub fn name(&self) -> (r: &String)
        ensures
            r@ == self.name@,
    {
        &self.name
    }

    pub fn set_name(&mut self, name: String)
        ensures
            final(self).name@ == name@,
            final(self).xmin == old(self).xmin,
            final(self).xmax == old(self).xmax,
            final(self).points@ == old(self).points@,
    {
        self.name = name;
    }

    pub fn xmin(&self) -> (r: &Decimal)
        ensures
            *r == self.xmin,
    {
        &self.xmin
    }

    pub fn xmax(&self) -> (r: &Decimal)
        ensures
            *r == self.xmax,
    {
        &self.xmax
    }

    pub fn points(&self) -> (r: &Vec<Point>)
        ensures
            r@ == self.points@,
    {
        &self.points
    }

    /// The number of points.
    pub fn get_size(&self) -> (r: usize)
        ensures
            r == self.points@.len(),
    {
        self.points.len()
    }

    /// Sets the declared start.  When `warn` is set and some point lies
    /// before the new start, an advisory is returned.
    pub fn set_xmin(&mut self, xmin: Decimal, warn: bool) -> (w: Vec<Warning>)
        ensures
            final(self).xmin == xmin,
            final(self).name@ == old(self).name@,
            final(self).xmax == old(self).xmax,
            final(self).points@ == old(self).points@,
            !warn ==> w@.len() == 0,
            warn ==> ((w@.len() > 0) <==> exists|k: int|
                0 <= k < old(self).points@.len() && (#[trigger] old(
                    self,
                ).points@[k])@.number.spec_lt(xmin)),
    {
        let mut w: Vec<Warning> = Vec::new();
        if warn {
            if let Some(m) = min_number(&self.points) {
                if m.lt(&xmin) {
                    w.push(Warning::BelowStart { tier: self.name.clone(), value: m, bound: xmin });
                    proof {
                        let k = choose|k: int|
                            0 <= k < self.points@.len() && (#[trigger] self.points@[k]).number
                                == m;
                        assert(self.points@[k]@.number.spec_lt(xmin));
                    }
                } else {
                    proof {
                        assert forall|k: int| 0 <= k < self.points@.len() implies !(
                        #[trigger] self.points@[k])@.number.spec_lt(xmin) by {
                            lemma_le_trans(xmin, m, self.points@[k].number);
                        }
                    }
                }
            }
        }
        self.xmin = xmin;
        w
    }

    /// Sets the declared end.  When `warn` is set and some point lies past
    /// the new end, an advisory is returned.
    pub fn set_xmax(&mut self, xmax: Decimal, warn: bool) -> (w: Vec<Warning>)
        ensures
            final(self).xmax == xmax,
            final(self).name@ == old(self).name@,
            final(self).xmin == old(self).xmin,
            final(self).points@ == old(self).points@,
            !warn ==> w@.len() == 0,
            warn ==> ((w@.len() > 0) <==> exists|k: int|
                0 <= k < old(self).points@.len() && xmax.spec_lt(
                    (#[trigger] old(self).points@[k])@.number,
                )),
    {
        let mut w: Vec<Warning> = Vec::new();
        if warn {
            if let Some(m) = max_number(&self.points) {
                if xmax.lt(&m) {
                    w.push(Warning::PastEnd { tier: self.name.clone(), value: m, bound: xmax });
                    proof {
                        let k = choose|k: int|
                            0 <= k < self.points@.len() && (#[trigger] self.points@[k]).number
                                == m;
                        assert(xmax.spec_lt(self.points@[k]@.number));
                    }
                } else {
                    proof {
                        assert forall|k: int| 0 <= k < self.points@.len() implies !xmax.spec_lt(
                            (#[trigger] self.points@[k])@.number,
                        ) by {
                            lemma_le_trans(self.points@[k].number, m, xmax);
                        }
                    }
                }
            }
        }
        self.xmax = xmax;
        w
    }

    /// Sorts the points by their position (stable).
    pub fn reorder(&mut self)
        ensures
            pvals(final(self).points@) == sort_by_number(pvals(old(self).points@)),
            final(self).name@ == old(self).name@,
            final(self).xmin == old(self).xmin,
            final(self).xmax == old(self).xmax,
    {
        sort_points(&mut self.points);
    }

    /// Appends one point, then restores the order.  When `warn` is set,
    /// a position outside the tier's bounds yields an advisory.
    pub fn push_point(&mut self, point: Point, warn: bool) -> (w: Vec<Warning>)
        ensures
            pvals(final(self).points@) == sort_by_number(pvals(old(self).points@).push(point@)),
            final(self).name@ == old(self).name@,
            final(self).xmin == old(self).xmin,
            final(self).xmax == old(self).xmax,
            !warn ==> w@.len() == 0,
            warn ==> ((w@.len() > 0) <==> (point@.number.spec_lt(old(self).xmin) || old(
                self,
            ).xmax.spec_lt(point@.number))),
    {
        let mut w: Vec<Warning> = Vec::new();
        if warn {
            if point.number.lt(&self.xmin) {
                w.push(
                    Warning::BelowStart {
                        tier: self.name.clone(),
                        value: point.number,
                        bound: self.xmin,
                    },
                );
            }
            if self.xmax.lt(&point.number) {
                w.push(
                    Warning::PastEnd {
                        tier: self.name.clone(),
                        value: point.number,
                        bound: self.xmax,
                    },
                );
            }
        }
        self.points.push(point);
        proof {
            assert(pvals(self.points@) =~= pvals(old(self).points@).push(point@));
        }
        sort_points(&mut self.points);
        w
    }

    /// Appends several points, then restores the order.  When `warn` is
    /// set, each position outside the tier's bounds yields an advisory.
    pub fn push_points(&mut self, points: Vec<Point>, warn: bool) -> (w: Vec<Warning>)
        ensures
            pvals(final(self).points@) == sort_by_number(
                pvals(old(self).points@) + pvals(points@),
            ),
            final(self).name@ == old(self).name@,
            final(self).xmin == old(self).xmin,
            final(self).xmax == old(self).xmax,
            !warn ==> w@.len() == 0,
            warn ==> ((w@.len() > 0) <==> exists|k: int|
                0 <= k < points@.len() && ((#[trigger] points@[k])@.number.spec_lt(old(self).xmin)
                    || old(self).xmax.spec_lt(points@[k]@.number))),
    {
        let mut w: Vec<Warning> = Vec::new();
        if warn {
            let mut k: usize = 0;
            while k < points.len()
                invariant
                    k <= points@.len(),
                    (w@.len() > 0) <==> exists|q: int|
                        0 <= q < k && ((#[trigger] points@[q])@.number.spec_lt(self.xmin)
                            || self.xmax.spec_lt(points@[q]@.number)),
                decreases points@.len() - k,
            {
                if points[k].number.lt(&self.xmin) {
                    w.push(
                        Warning::BelowStart {
                            tier: self.name.clone(),
                            value: points[k].number,
                            bound: self.xmin,
                        },
                    );
                }
                if self.xmax.lt(&points[k].number) {
                    w.push(
                        Warning::PastEnd {
                            tier: self.name.clone(),
                            value: points[k].number,
                            bound: self.xmax,
                        },
                    );
                }
                k = k + 1;
            }
        }
        let mut points = points;
        let ghost added = points@;
        self.points.append(&mut points);
        proof {
            assert(pvals(self.points@) =~= pvals(old(self).points@) + pvals(added));
        }
        sort_points(&mut self.points);
        w
    }

    /// Reports every ordered pair of distinct indices holding the same
    /// position, in row-major order; `None` when all positions differ.
    pub fn check_overlaps(&self) -> (r: Option<Vec<(u64, u64)>>)
        ensures
            match r {
                Some(v) => v@ == dup_pairs(pvals(self.points@)) && v@.len() > 0,
                None => dup_pairs(pvals(self.points@)).len() == 0,
            },
    {
        let ghost s = pvals(self.points@);
        let n = self.points.len();
        let mut out: Vec<(u64, u64)> = Vec::new();
        let mut i: usize = 0;
        while i < n
            invariant
                n == self.points@.len(),
                s == pvals(self.points@),
                i <= n,
                out@ + dup_pairs_from(s, i as nat) == dup_pairs(s),
            decreases n - i,
        {
            let mut j: usize = 0;
            while j < n
                invariant
                    n == self.points@.len(),
                    s == pvals(self.points@),
                    i < n,
                    j <= n,
                    out@ + dup_pairs_row(s, i as nat, j as nat) + dup_pairs_from(s, i as nat + 1)
                        == dup_pairs(s),
                decreases n - j,
            {
                let ghost out0 = out@;
                if i != j && self.points[i].number.eq_value(&self.points[j].number) {
                    out.push((i as u64, j as u64));
                    proof {
                        assert(s[i as int].number.same_value(s[j as int].number));
                        assert(out0 + (seq![(i as u64, j as u64)] + dup_pairs_row(
                            s,
                            i as nat,
                            j as nat + 1,
                        )) =~= out@ + dup_pairs_row(s, i as nat, j as nat + 1));
                        assert(out0 + dup_pairs_row(s, i as nat, j as nat) + dup_pairs_from(
                            s,
                            i as nat + 1,
                        ) =~= out@ + dup_pairs_row(s, i as nat, j as nat + 1) + dup_pairs_from(
                            s,
                            i as nat + 1,
                        ));
                    }
                } else {
                    proof {
                        if i != j {
                            assert(!s[i as int].number.same_value(s[j as int].number));
                        }
                    }
                }
                j = j + 1;
            }
            proof {
                assert(dup_pairs_row(s, i as nat, n as nat) =~= Seq::<(u64, u64)>::empty());
                assert(out@ + Seq::<(u64, u64)>::empty() =~= out@);
                assert(out@ + dup_pairs_from(s, i as nat + 1) == dup_pairs(s));
            }
            i = i + 1;
        }
        proof {
            assert(dup_pairs_from(s, i as nat) =~= Seq::<(u64, u64)>::empty());
            assert(out@ + Seq::<(u64, u64)>::empty() =~= out@);
        }
        if out.len() == 0 {
            None
        } else {
            Some(out)
        }
    }

    /// The descriptive multi-line text for this tier.
    pub fn to_text(&self) -> (r: String)
        ensures
            r@ == "PointTier "@ + self.name@ + ":\n                xmin:  "@
                + self.xmin.spec_text() + "\n                xmax:  "@ + self.xmax.spec_text()
                + "\n                point count: "@ + crate::decimal::spec_digits(
                self.points@.len(),
            ),
    {
        let mut r: String = "PointTier ".to_owned();
        r.append(self.name.as_str());
        r.append(":\n                xmin:  ");
        r.append(self.xmin.to_text().as_str());
        r.append("\n                xmax:  ");
        r.append(self.xmax.to_text().as_str());
        r.append("\n                point count: ");
        r.append(crate::decimal::u64_to_string(self.points.len() as u64).as_str());
        r
    }
}

/// The least point position, by value, or `None` for an empty tier.
fn min_number(v: &Vec<Point>) -> (r: Option<Decimal>)
    ensures
        r is Some <==> v@.len() > 0,
        r matches Some(m) ==> (exists|k: int| 0 <= k < v@.len() && (#[trigger] v@[k]).number == m)
            && forall|k: int| 0 <= k < v@.len() ==> m.spec_le((#[trigger] v@[k]).number),
{
    if v.len() == 0 {
        return None;
    }
    let mut m: Decimal = v[0].number;
    let mut i: usize = 1;
    while i < v.len()
        invariant
            1 <= i <= v@.len(),
            exists|k: int| 0 <= k < i && (#[trigger] v@[k]).number == m,
            forall|k: int| 0 <= k < i ==> m.spec_le((#[trigger] v@[k]).number),
        decreases v@.len() - i,
    {
        let ghost prev = m;
        if v[i].number.lt(&m) {
            m = v[i].number;
            proof {
                lemma_le_total(m, prev);
                assert forall|k: int| 0 <= k < i + 1 implies m.spec_le(
                    (#[trigger] v@[k]).number,
                ) by {
                    if k < i {
                        lemma_le_trans(m, prev, v@[k].number);
                    }
                }
            }
        }
        i = i + 1;
    }
    Some(m)
}

/// The greatest point position, by value, or `None` for an empty tier.
fn max_number(v: &Vec<Point>) -> (r: Option<Decimal>)
    ensures
        r is Some <==> v@.len() > 0,
        r matches Some(m) ==> (exists|k: int| 0 <= k < v@.len() && (#[trigger] v@[k]).number == m)
            && forall|k: int| 0 <= k < v@.len() ==> (#[trigger] v@[k]).number.spec_le(m),
{
    if v.len() == 0 {
        return None;
    }
    let mut m: Decimal = v[0].number;
    let mut i: usize = 1;
    while i < v.len()
        invariant
            1 <= i <= v@.len(),
            exists|k: int| 0 <= k < i && (#[trigger] v@[k]).number == m,
            forall|k: int| 0 <= k < i ==> (#[trigger] v@[k]).number.spec_le(m),
        decreases v@.len() - i,
    {
        let ghost prev = m;
        if m.lt(&v[i].number) {
            m = v[i].number;
            proof {
                lemma_le_total(prev, m);
                assert forall|k: int| 0 <= k < i + 1 implies (#[trigger] v@[k]).number.spec_le(
                    m,
                ) by {
                    if k < i {
                        lemma_le_trans(v@[k].number, prev, m);
                    }
                }
            }
        }
        i = i + 1;
    }
    Some(m)
}

} // verus!
