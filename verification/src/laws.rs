//! Round-trip laws of the decoder.
//!
//! Both output layouts reduce, under the token filter, to the same flat
//! sequence of value tokens.  The laws here state that decoding that
//! sequence restores the document exactly — whatever child and tier counts
//! the text declares, right or wrong, since the decoder treats every
//! declared count as advisory and trusts only the tier-kind sentinels.

use crate::decimal::{
    is_digit_char, lemma_digits_val_of_spec_digits, lemma_spec_digits_len, lemma_text_round_trip,
    spec_digits, Decimal,
};
use crate::decode::{
    is_sentinel, num_chars_of, spec_decode_document, spec_decode_interval, spec_decode_intervals,
    spec_decode_point, spec_decode_points, spec_decode_tier, spec_decode_tiers, spec_pull_integer,
    spec_pull_number, Outcome,
};
use crate::interval::IntervalView;
use crate::point::PointView;
use crate::textgrid::{TextGridView, TierView};
use crate::textgrid::{
    long_interval_lines, long_intervals_lines, long_lines, long_point_lines, long_points_lines,
    long_tier_lines, long_tiers_lines, quoted, short_interval_lines, short_intervals_lines,
    short_lines, short_point_lines, short_points_lines, short_tier_lines, short_tiers_lines,
};
use crate::tokens::{
    digit_run_end, dot_count, filter_token, filter_tokens, find_match, first_digit_at,
    is_space_char, next_quote, nonspace_end, number_match, spec_blank, spec_normalize_lines,
    spec_process_lines, spec_split_line, spec_strip_comment, spec_token_u64, split_line_from,
};
use vstd::prelude::*;

verus! {

/// Text that survives the trip through a quoted token unchanged and can
/// never be mistaken for a tier-kind sentinel.
pub open spec fn token_safe(t: Seq<char>) -> bool {
    &&& forall|i: int| 0 <= i < t.len() ==> t[i] != '"' && t[i] != '!'
    &&& !is_sentinel(t)
}

/// A time value the text format can carry: canonical and non-negative.
pub open spec fn time_wf(d: Decimal) -> bool {
    d.wf() && !d.neg
}

/// An interval whose text round-trips.
pub open spec fn interval_wf(v: IntervalView) -> bool {
    time_wf(v.xmin) && time_wf(v.xmax) && token_safe(v.text)
}

/// A point whose text round-trips.
pub open spec fn point_wf(v: PointView) -> bool {
    time_wf(v.number) && token_safe(v.mark)
}

/// A tier whose text round-trips.
pub open spec fn tier_wf(t: TierView) -> bool {
    match t {
        TierView::IntervalTier(v) => {
            &&& token_safe(v.name)
            &&& time_wf(v.xmin)
            &&& time_wf(v.xmax)
            &&& v.intervals.len() <= u64::MAX
            &&& forall|i: int| 0 <= i < v.intervals.len() ==> interval_wf(#[trigger] v.intervals[i])
        },
        TierView::PointTier(v) => {
            &&& token_safe(v.name)
            &&& time_wf(v.xmin)
            &&& time_wf(v.xmax)
            &&& v.points.len() <= u64::MAX
            &&& forall|i: int| 0 <= i < v.points.len() ==> point_wf(#[trigger] v.points[i])
        },
    }
}

/// A document whose text round-trips.
pub open spec fn document_wf(d: TextGridView) -> bool {
    &&& time_wf(d.xmin)
    &&& time_wf(d.xmax)
    &&& d.tiers.len() <= u64::MAX
    &&& forall|i: int| 0 <= i < d.tiers.len() ==> tier_wf(#[trigger] d.tiers[i])
}

/// The value tokens of one interval.
pub open spec fn interval_tokens(v: IntervalView) -> Seq<Seq<char>> {
    seq![v.xmin.spec_text(), v.xmax.spec_text(), v.text]
}

/// The value tokens of one point.
pub open spec fn point_tokens(v: PointView) -> Seq<Seq<char>> {
    seq![v.number.spec_text(), v.mark]
}

/// The value tokens of a run of intervals.
pub open spec fn intervals_tokens(s: Seq<IntervalView>) -> Seq<Seq<char>>
    decreases s.len(),
{
    if s.len() == 0 {
        Seq::empty()
    } else {
        interval_tokens(s[0]) + intervals_tokens(s.subrange(1, s.len() as int))
    }
}

/// The value tokens of a run of points.
pub open spec fn points_tokens(s: Seq<PointView>) -> Seq<Seq<char>>
    decreases s.len(),
{
    if s.len() == 0 {
        Seq::empty()
    } else {
        point_tokens(s[0]) + points_tokens(s.subrange(1, s.len() as int))
    }
}

/// The value tokens of one tier, declaring `declared` children — whether
/// or not that is the true count.
pub open spec fn tier_tokens(t: TierView, declared: nat) -> Seq<Seq<char>> {
    match t {
        TierView::IntervalTier(v) => seq![
            "IntervalTier"@,
            v.name,
            v.xmin.spec_text(),
            v.xmax.spec_text(),
            spec_digits(declared),
        ] + intervals_tokens(v.intervals),
        TierView::PointTier(v) => seq![
            "TextTier"@,
            v.name,
            v.xmin.spec_text(),
            v.xmax.spec_text(),
            spec_digits(declared),
        ] + points_tokens(v.points),
    }
}

/// The value tokens of a run of tiers, with arbitrary declared counts.
pub open spec fn tiers_tokens(s: Seq<TierView>, declared: Seq<nat>) -> Seq<Seq<char>>
    decreases s.len(),
{
    if s.len() == 0 {
        Seq::empty()
    } else {
        tier_tokens(s[0], declared[0]) + tiers_tokens(
            s.subrange(1, s.len() as int),
            declared.subrange(1, declared.len() as int),
        )
    }
}

/// The value tokens of a whole document, with arbitrary declared counts:
/// `doc_declared` for the tier count and one entry of `declared` for each
/// tier's child count.
pub open spec fn document_tokens(d: TextGridView, doc_declared: nat, declared: Seq<nat>) -> Seq<
    Seq<char>,
> {
    seq![
        "ooTextFile"@,
        "TextGrid"@,
        d.xmin.spec_text(),
        d.xmax.spec_text(),
        spec_digits(doc_declared),
    ] + tiers_tokens(d.tiers, declared)
}

/// A rendered time is made of digits and at most one dot, and begins with
/// a digit.
proof fn lemma_spec_text_shape(d: Decimal)
    requires
        time_wf(d),
    ensures
        d.spec_text().len() >= 1,
        is_digit_char(d.spec_text()[0]),
        forall|i: int| 0 <= i < d.spec_text().len() ==> is_digit_char(#[trigger] d.spec_text()[i])
            || d.spec_text()[i] == '.',
        forall|i: int, j: int|
            0 <= i < j < d.spec_text().len() && d.spec_text()[i] == '.' ==> d.spec_text()[j] != '.',
{
    let t = d.spec_text();
    let ds = spec_digits(d.units as nat);
    lemma_spec_digits_len(d.units as nat);
    if d.scale == 0 {
        assert(t == ds);
    } else if ds.len() > d.scale as nat {
        let cut = ds.len() - d.scale as nat;
        assert(forall|i: int| 0 <= i < cut ==> t[i] == ds[i]);
        assert(t[cut as int] == '.');
        assert(forall|i: int| cut < i < t.len() ==> t[i] == ds[i - 1]);
        assert(is_digit_char(t[0]));
        assert(!is_digit_char('.')) by {
            assert('.' as u32 == 46);
        }
    } else {
        let pad = (d.scale as nat - ds.len()) as nat;
        crate::decimal::lemma_zero_chars(pad);
        assert(t[0] == '0');
        assert(is_digit_char('0')) by {
            assert('0' as u32 == 48);
        }
        assert(t[1] == '.');
        assert(forall|i: int| 2 <= i < 2 + pad ==> t[i] == zero_chars_at(pad, i - 2));
        assert(forall|i: int| 2 <= i < 2 + pad ==> is_digit_char(#[trigger] t[i])) by {
            assert(forall|i: int| 2 <= i < 2 + pad ==> t[i] == '0');
        }
        assert(forall|i: int| 2 + pad <= i < t.len() ==> t[i] == ds[i - 2 - pad]);
    }
}

/// A helper naming one character of a zero run.
spec fn zero_chars_at(n: nat, i: int) -> char {
    crate::decimal::zero_chars(n)[i]
}

/// The digit run from `i` ends at the first non-digit at or past `i`.
proof fn lemma_digit_run_to(t: Seq<char>, i: nat, j: nat)
    requires
        i <= j <= t.len(),
        forall|k: int| i <= k < j ==> is_digit_char(#[trigger] t[k]),
        j < t.len() ==> !is_digit_char(t[j as int]),
    ensures
        digit_run_end(t, i) == j,
    decreases j - i,
{
    if i < j {
        lemma_digit_run_to(t, i + 1, j);
    }
}

/// The numeric pattern matches a whole rendered time.
proof fn lemma_number_match_of_time(d: Decimal)
    requires
        time_wf(d),
    ensures
        number_match(d.spec_text()) == Some(d.spec_text()),
{
    let t = d.spec_text();
    lemma_spec_text_shape(d);
    assert(first_digit_at(t, 0) == 0);
    if forall|i: int| 0 <= i < t.len() ==> is_digit_char(#[trigger] t[i]) {
        lemma_digit_run_to(t, 0, t.len());
        assert(t.subrange(0, t.len() as int) =~= t);
    } else {
        let w = choose|i: int| 0 <= i < t.len() && !is_digit_char(#[trigger] t[i]);
        assert(t[w] == '.');
        // all characters before the dot are digits, all after are digits
        assert(forall|k: int| 0 <= k < t.len() && k != w ==> is_digit_char(#[trigger] t[k])) by {
            assert(forall|k: int| 0 <= k < t.len() && !is_digit_char(#[trigger] t[k]) ==> t[k]
                == '.');
            assert(forall|k: int| w < k < t.len() ==> t[k] != '.');
            assert(forall|k: int| 0 <= k < w ==> t[k] != '.') by {
                assert(forall|k: int| 0 <= k < w && t[k] == '.' ==> t[w] != '.');
            }
        }
        lemma_digit_run_to(t, 0, w as nat);
        assert(w < t.len());
        // the dot is followed by at least one digit: a rendered time never
        // ends in a dot
        assert(w + 1 < t.len()) by {
            let ds = spec_digits(d.units as nat);
            lemma_spec_digits_len(d.units as nat);
            if d.scale == 0 {
            } else if ds.len() > d.scale as nat {
                assert(t[t.len() - 1] == ds[ds.len() - 1]);
                assert(is_digit_char(t[t.len() - 1]));
            } else {
                assert(t[t.len() - 1] == ds[ds.len() - 1]);
                assert(is_digit_char(t[t.len() - 1]));
            }
            assert(t[t.len() - 1] != '.');
        }
        assert(is_digit_char(t[w + 1]));
        lemma_digit_run_to(t, (w + 1) as nat, t.len());
        assert(t.subrange(0, t.len() as int) =~= t);
    }
}

/// A rendered time or digit string is never a tier-kind sentinel.
proof fn lemma_numeral_not_sentinel(t: Seq<char>)
    requires
        t.len() >= 1,
        is_digit_char(t[0]) || t[0] == '.',
    ensures
        !is_sentinel(t),
{
    reveal_strlit("IntervalTier");
    reveal_strlit("TextTier");
    assert("IntervalTier"@[0] == 'I' && "TextTier"@[0] == 'T');
    assert('I' as u32 == 73 && 'T' as u32 == 84 && '.' as u32 == 46);
}

/// Reading a rendered digit string back as an integer gives the number.
proof fn lemma_token_u64_of_digits(n: nat)
    requires
        n <= u64::MAX,
    ensures
        spec_token_u64(spec_digits(n)) == Some(n as u64),
{
    lemma_spec_digits_len(n);
    lemma_digits_val_of_spec_digits(n);
}

/// Pulling a number right at a rendered time reads it back exactly.
proof fn lemma_pull_at_time(q: Seq<Seq<char>>, i: nat, d: Decimal)
    requires
        i < q.len(),
        q[i as int] == d.spec_text(),
        time_wf(d),
    ensures
        spec_pull_number(q, i) == Outcome::<Decimal>::Good(d, i + 1),
{
    lemma_number_match_of_time(d);
    assert(find_match(q, i) == i);
    lemma_text_round_trip(d);
}

/// Pulling an integer right at a rendered digit string reads it back
/// exactly.
proof fn lemma_pull_at_count(q: Seq<Seq<char>>, i: nat, n: nat)
    requires
        i < q.len(),
        q[i as int] == spec_digits(n),
        n <= u64::MAX,
    ensures
        spec_pull_integer(q, i) == Outcome::<u64>::Good(n as u64, i + 1),
{
    lemma_spec_digits_len(n);
    assert(number_match(spec_digits(n)) == Some(spec_digits(n))) by {
        let t = spec_digits(n);
        assert(first_digit_at(t, 0) == 0);
        lemma_digit_run_to(t, 0, t.len());
        assert(t.subrange(0, t.len() as int) =~= t);
    }
    assert(find_match(q, i) == i);
    lemma_token_u64_of_digits(n);
}

/// A text of digits and dots passes the bound filter unchanged.
proof fn lemma_num_chars_identity(t: Seq<char>)
    requires
        forall|i: int| 0 <= i < t.len() ==> is_digit_char(#[trigger] t[i]) || t[i] == '.',
    ensures
        num_chars_of(t) == t,
    decreases t.len(),
{
    if t.len() > 0 {
        lemma_num_chars_identity(t.drop_last());
        assert(t.drop_last().push(t.last()) =~= t);
    } else {
        assert(num_chars_of(t) =~= t);
    }
}

/// A subrange taken further in equals the inner subrange of the outer one.
proof fn lemma_subrange_shift(q: Seq<Seq<char>>, a: int, b: int, c: int)
    requires
        0 <= a,
        0 <= c,
        a + c <= b <= q.len(),
    ensures
        q.subrange(a + c, b) =~= q.subrange(a, b).subrange(c, b - a),
{
}

/// Decoding an interval run laid out at `i` restores it and stops at the
/// boundary.
proof fn lemma_decode_intervals_restore(q: Seq<Seq<char>>, i: nat, s: Seq<IntervalView>)
    requires
        i + intervals_tokens(s).len() <= q.len(),
        q.subrange(i as int, (i + intervals_tokens(s).len()) as int) == intervals_tokens(s),
        i + intervals_tokens(s).len() == q.len() || is_sentinel(
            q[(i + intervals_tokens(s).len()) as int],
        ),
        forall|k: int| 0 <= k < s.len() ==> interval_wf(#[trigger] s[k]),
    ensures
        spec_decode_intervals(q, i) == Outcome::<Seq<IntervalView>>::Good(
            s,
            i + intervals_tokens(s).len(),
        ),
    decreases s.len(),
{
    let toks = intervals_tokens(s);
    if s.len() == 0 {
        assert(toks =~= Seq::<Seq<char>>::empty());
        assert(s =~= Seq::<IntervalView>::empty());
        assert(spec_decode_intervals(q, i) == Outcome::<Seq<IntervalView>>::Good(
            Seq::empty(),
            i,
        ));
    } else {
        let v = s[0];
        let rest = s.subrange(1, s.len() as int);
        assert(toks == interval_tokens(v) + intervals_tokens(rest));
        assert(toks.len() == 3 + intervals_tokens(rest).len());
        let sub = q.subrange(i as int, (i + toks.len()) as int);
        assert(sub[0] == q[i as int] && sub[0] == toks[0] && toks[0] == v.xmin.spec_text());
        assert(sub[1] == q[i as int + 1] && sub[1] == toks[1] && toks[1] == v.xmax.spec_text());
        assert(sub[2] == q[i as int + 2] && sub[2] == toks[2] && toks[2] == v.text);
        assert(interval_wf(v));
        lemma_spec_text_shape(v.xmin);
        lemma_numeral_not_sentinel(v.xmin.spec_text());
        assert(!is_sentinel(q[i as int]));
        lemma_pull_at_time(q, i, v.xmin);
        lemma_pull_at_time(q, i + 1, v.xmax);
        assert(i + 2 < q.len());
        assert(spec_decode_interval(q, i) == Outcome::<IntervalView>::Good(
            IntervalView { xmin: v.xmin, xmax: v.xmax, text: q[i as int + 2] },
            i + 3,
        ));
        assert(IntervalView { xmin: v.xmin, xmax: v.xmax, text: q[i as int + 2] } == v);
        lemma_subrange_shift(q, i as int, (i + toks.len()) as int, 3);
        assert(q.subrange((i + 3) as int, (i + toks.len()) as int) == toks.subrange(
            3,
            toks.len() as int,
        ));
        assert(toks.subrange(3, toks.len() as int) =~= intervals_tokens(rest));
        lemma_decode_intervals_restore(q, i + 3, rest);
        assert(seq![v] + rest =~= s);
    }
}

/// Decoding a point run laid out at `i` restores it and stops at the
/// boundary.
proof fn lemma_decode_points_restore(q: Seq<Seq<char>>, i: nat, s: Seq<PointView>)
    requires
        i + points_tokens(s).len() <= q.len(),
        q.subrange(i as int, (i + points_tokens(s).len()) as int) == points_tokens(s),
        i + points_tokens(s).len() == q.len() || is_sentinel(
            q[(i + points_tokens(s).len()) as int],
        ),
        forall|k: int| 0 <= k < s.len() ==> point_wf(#[trigger] s[k]),
    ensures
        spec_decode_points(q, i) == Outcome::<Seq<PointView>>::Good(s, i + points_tokens(s).len()),
    decreases s.len(),
{
    let toks = points_tokens(s);
    if s.len() == 0 {
        assert(toks =~= Seq::<Seq<char>>::empty());
        assert(s =~= Seq::<PointView>::empty());
        assert(spec_decode_points(q, i) == Outcome::<Seq<PointView>>::Good(Seq::empty(), i));
    } else {
        let v = s[0];
        let rest = s.subrange(1, s.len() as int);
        assert(toks == point_tokens(v) + points_tokens(rest));
        assert(toks.len() == 2 + points_tokens(rest).len());
        let sub = q.subrange(i as int, (i + toks.len()) as int);
        assert(sub[0] == q[i as int] && sub[0] == toks[0] && toks[0] == v.number.spec_text());
        assert(sub[1] == q[i as int + 1] && sub[1] == toks[1] && toks[1] == v.mark);
        assert(point_wf(v));
        lemma_spec_text_shape(v.number);
        lemma_numeral_not_sentinel(v.number.spec_text());
        assert(!is_sentinel(q[i as int]));
        lemma_pull_at_time(q, i, v.number);
        assert(i + 1 < q.len());
        assert(spec_decode_point(q, i) == Outcome::<PointView>::Good(
            PointView { number: v.number, mark: q[i as int + 1] },
            i + 2,
        ));
        assert(PointView { number: v.number, mark: q[i as int + 1] } == v);
        lemma_subrange_shift(q, i as int, (i + toks.len()) as int, 2);
        assert(q.subrange((i + 2) as int, (i + toks.len()) as int) == toks.subrange(
            2,
            toks.len() as int,
        ));
        assert(toks.subrange(2, toks.len() as int) =~= points_tokens(rest));
        lemma_decode_points_restore(q, i + 2, rest);
        assert(seq![v] + rest =~= s);
    }
}

/// Decoding a tier laid out at `i` restores it, whatever child count the
/// text declares.
proof fn lemma_decode_tier_restore(q: Seq<Seq<char>>, i: nat, t: TierView, declared: nat)
    requires
        i + tier_tokens(t, declared).len() <= q.len(),
        q.subrange(i as int, (i + tier_tokens(t, declared).len()) as int) == tier_tokens(
            t,
            declared,
        ),
        i + tier_tokens(t, declared).len() == q.len() || is_sentinel(
            q[(i + tier_tokens(t, declared).len()) as int],
        ),
        tier_wf(t),
        declared <= u64::MAX,
    ensures
        spec_decode_tier(q, i) == Outcome::<TierView>::Good(t, i + tier_tokens(t, declared).len()),
{
    reveal_strlit("IntervalTier");
    reveal_strlit("TextTier");
    let toks = tier_tokens(t, declared);
    assert(toks.len() >= 5);
    let sub = q.subrange(i as int, (i + toks.len()) as int);
    assert(sub[0] == q[i as int] && sub[0] == toks[0]);
    assert(sub[1] == q[i as int + 1] && sub[1] == toks[1]);
    assert(sub[2] == q[i as int + 2] && sub[2] == toks[2]);
    assert(sub[3] == q[i as int + 3] && sub[3] == toks[3]);
    assert(sub[4] == q[i as int + 4] && sub[4] == toks[4]);
    assert("IntervalTier"@.len() == 12 && "TextTier"@.len() == 8);
    lemma_subrange_shift(q, i as int, (i + toks.len()) as int, 5);
    assert(q.subrange((i + 5) as int, (i + toks.len()) as int) == toks.subrange(
        5,
        toks.len() as int,
    ));
    match t {
        TierView::IntervalTier(v) => {
            assert(q[i as int] == "IntervalTier"@);
            assert(is_sentinel(q[i as int]));
            assert(q[i as int + 1] == v.name);
            lemma_pull_at_time(q, i + 2, v.xmin);
            lemma_pull_at_time(q, i + 3, v.xmax);
            lemma_pull_at_count(q, i + 4, declared);
            let crun = intervals_tokens(v.intervals);
            assert(toks.subrange(5, toks.len() as int) =~= crun);
            lemma_decode_intervals_restore(q, i + 5, v.intervals);
        },
        TierView::PointTier(v) => {
            assert(q[i as int] == "TextTier"@);
            assert(is_sentinel(q[i as int]));
            assert(q[i as int] != "IntervalTier"@);
            assert(q[i as int + 1] == v.name);
            lemma_pull_at_time(q, i + 2, v.xmin);
            lemma_pull_at_time(q, i + 3, v.xmax);
            lemma_pull_at_count(q, i + 4, declared);
            let crun = points_tokens(v.points);
            assert(toks.subrange(5, toks.len() as int) =~= crun);
            lemma_decode_points_restore(q, i + 5, v.points);
        },
    }
}

/// Decoding a run of tiers that fills the rest of the queue restores them
/// all, whatever counts the text declares.
proof fn lemma_decode_tiers_restore(q: Seq<Seq<char>>, i: nat, s: Seq<TierView>, declared: Seq<
    nat,
>)
    requires
        i <= q.len(),
        declared.len() == s.len(),
        q.subrange(i as int, q.len() as int) == tiers_tokens(s, declared),
        forall|k: int| 0 <= k < s.len() ==> tier_wf(#[trigger] s[k]),
        forall|k: int| 0 <= k < declared.len() ==> #[trigger] declared[k] <= u64::MAX,
    ensures
        spec_decode_tiers(q, i) == Outcome::<Seq<TierView>>::Good(s, q.len() as nat),
    decreases s.len(),
{
    if s.len() == 0 {
        assert(tiers_tokens(s, declared) =~= Seq::<Seq<char>>::empty());
        assert(s =~= Seq::<TierView>::empty());
        assert(i == q.len());
    } else {
        let t = s[0];
        let rest = s.subrange(1, s.len() as int);
        let drest = declared.subrange(1, declared.len() as int);
        let head = tier_tokens(t, declared[0]);
        assert(tiers_tokens(s, declared) == head + tiers_tokens(rest, drest));
        let sub = q.subrange(i as int, q.len() as int);
        assert(head.len() <= sub.len());
        lemma_subrange_shift(q, i as int, q.len() as int, head.len() as int);
        assert(q.subrange(i as int + head.len(), q.len() as int) == sub.subrange(
            head.len() as int,
            sub.len() as int,
        ));
        assert(sub.subrange(head.len() as int, sub.len() as int) =~= tiers_tokens(rest, drest));
        assert(q.subrange(i as int, (i + head.len()) as int) =~= head) by {
            lemma_subrange_shift(q, i as int, q.len() as int, 0);
            assert(forall|k: int| 0 <= k < head.len() ==> #[trigger] sub[k] == head[k]);
            assert(forall|k: int| 0 <= k < head.len() ==> #[trigger] q.subrange(
                i as int,
                (i + head.len()) as int,
            )[k] == sub[k]);
        }
        // the token after this tier's run is the next tier's sentinel, or
        // the end of the queue
        assert(i + head.len() == q.len() || is_sentinel(q[(i + head.len()) as int])) by {
            if i + head.len() < q.len() {
                assert(tiers_tokens(rest, drest).len() > 0);
                assert(tiers_tokens(rest, drest)[0] == tier_tokens(rest[0], drest[0])[0]);
                reveal_strlit("IntervalTier");
                reveal_strlit("TextTier");
                match rest[0] {
                    TierView::IntervalTier(_) => {},
                    TierView::PointTier(_) => {},
                }
                assert(q[i as int + head.len()] == sub[head.len() as int]);
                assert(sub[head.len() as int] == tiers_tokens(rest, drest)[0]);
            }
        }
        lemma_decode_tier_restore(q, i, t, declared[0]);
        lemma_decode_tiers_restore(q, i + head.len(), rest, drest);
        assert(seq![t] + rest =~= s);
    }
}

/// Decoding restores a document from its value tokens, for every choice of
/// declared tier and child counts: the declared sizes are advisory only,
/// and the decoder recovers the true structure from the tier-kind
/// sentinels alone.  With the true counts this is the round trip of the
/// serializer; with wrong ones it is the sentinel-driven recovery.
pub proof fn lemma_decode_restores_document(
    d: TextGridView,
    name: Seq<char>,
    doc_declared: nat,
    declared: Seq<nat>,
)
    requires
        document_wf(d),
        declared.len() == d.tiers.len(),
        doc_declared <= u64::MAX,
        forall|k: int| 0 <= k < declared.len() ==> #[trigger] declared[k] <= u64::MAX,
    ensures
        spec_decode_document(document_tokens(d, doc_declared, declared), name)
            == Outcome::<TextGridView>::Good(
            TextGridView { xmin: d.xmin, xmax: d.xmax, tiers: d.tiers, name },
            document_tokens(d, doc_declared, declared).len(),
        ),
{
    reveal_strlit("ooTextFile");
    reveal_strlit("TextGrid");
    let q = document_tokens(d, doc_declared, declared);
    assert(q.len() >= 5);
    assert(q[0] == "ooTextFile"@ && q[1] == "TextGrid"@);
    assert(q[2] == d.xmin.spec_text() && q[3] == d.xmax.spec_text());
    assert(q[4] == spec_digits(doc_declared));
    lemma_spec_text_shape(d.xmin);
    lemma_spec_text_shape(d.xmax);
    lemma_num_chars_identity(d.xmin.spec_text());
    lemma_num_chars_identity(d.xmax.spec_text());
    lemma_text_round_trip(d.xmin);
    lemma_text_round_trip(d.xmax);
    lemma_pull_at_count(q, 4, doc_declared);
    assert(q.subrange(5, q.len() as int) =~= tiers_tokens(d.tiers, declared));
    lemma_decode_tiers_restore(q, 5, d.tiers, declared);
}

/// Normalization distributes over concatenation of line runs.
proof fn lemma_normalize_append(a: Seq<Seq<char>>, b: Seq<Seq<char>>)
    ensures
        spec_normalize_lines(a + b) == spec_normalize_lines(a) + spec_normalize_lines(b),
    decreases a.len(),
{
    if a.len() == 0 {
        assert(a + b =~= b);
        assert(spec_normalize_lines(a) =~= Seq::<Seq<char>>::empty());
        assert(spec_normalize_lines(a) + spec_normalize_lines(b) =~= spec_normalize_lines(b));
    } else {
        let t = a.subrange(1, a.len() as int);
        lemma_normalize_append(t, b);
        assert((a + b).subrange(1, (a + b).len() as int) =~= t + b);
        assert((a + b)[0] == a[0]);
        if spec_blank(a[0]) {
        } else {
            assert(seq![spec_strip_comment(a[0])] + (spec_normalize_lines(t)
                + spec_normalize_lines(b)) =~= (seq![spec_strip_comment(a[0])]
                + spec_normalize_lines(t)) + spec_normalize_lines(b));
        }
    }
}

/// The token filter distributes over concatenation of line runs.
proof fn lemma_process_append(a: Seq<Seq<char>>, b: Seq<Seq<char>>)
    ensures
        spec_process_lines(a + b) == spec_process_lines(a) + spec_process_lines(b),
    decreases a.len(),
{
    if a.len() == 0 {
        assert(a + b =~= b);
        assert(spec_process_lines(a) =~= Seq::<Seq<char>>::empty());
        assert(spec_process_lines(a) + spec_process_lines(b) =~= spec_process_lines(b));
    } else {
        let t = a.subrange(1, a.len() as int);
        lemma_process_append(t, b);
        assert((a + b).subrange(1, (a + b).len() as int) =~= t + b);
        assert((a + b)[0] == a[0]);
        assert(filter_tokens(spec_split_line(a[0])) + (spec_process_lines(t)
            + spec_process_lines(b)) =~= (filter_tokens(spec_split_line(a[0]))
            + spec_process_lines(t)) + spec_process_lines(b));
    }
}

/// The value tokens of a run of lines, after normalization.
pub open spec fn tokens_of_lines(lines: Seq<Seq<char>>) -> Seq<Seq<char>> {
    spec_process_lines(spec_normalize_lines(lines))
}

/// The whole tokenizing pipeline distributes over concatenation.
proof fn lemma_tokens_append(a: Seq<Seq<char>>, b: Seq<Seq<char>>)
    ensures
        tokens_of_lines(a + b) == tokens_of_lines(a) + tokens_of_lines(b),
{
    lemma_normalize_append(a, b);
    lemma_process_append(spec_normalize_lines(a), spec_normalize_lines(b));
}

/// A line without a `!` keeps no comment to strip.
proof fn lemma_no_comment(s: Seq<char>, i: nat, odd: bool)
    requires
        i <= s.len(),
        forall|k: int| 0 <= k < s.len() ==> s[k] != '!',
    ensures
        crate::tokens::comment_cut(s, i, odd) == s.len(),
    decreases s.len() - i,
{
    if i < s.len() {
        if s[i as int] == '"' {
            lemma_no_comment(s, i + 1, !odd);
        } else {
            lemma_no_comment(s, i + 1, odd);
        }
    }
}

/// A quoted line of safe text yields exactly the text inside the quotes.
proof fn lemma_quoted_line_token(x: Seq<char>)
    requires
        forall|k: int| 0 <= k < x.len() ==> x[k] != '"' && x[k] != '!',
    ensures
        tokens_of_lines(seq![quoted(x)]) == seq![x],
{
    let line = quoted(x);
    assert(line.len() == x.len() + 2);
    assert(line[0] == '"' && line[line.len() - 1] == '"');
    assert(forall|k: int| 1 <= k < line.len() - 1 ==> line[k] == x[k - 1]);
    // not blank: a double quote is no whitespace
    assert(!spec_blank(line)) by {
        assert('"' as u32 == 34);
        assert(!is_space_char(line[0]));
    }
    // no comment to strip
    assert(spec_strip_comment(line) == line) by {
        assert(forall|k: int| 0 <= k < line.len() ==> line[k] != '!');
        lemma_no_comment(line, 0, false);
        assert(line.subrange(0, line.len() as int) =~= line);
    }
    assert(spec_normalize_lines(seq![quoted(x)]) =~= seq![line]) by {
        assert(seq![quoted(x)].subrange(1, 1) =~= Seq::<Seq<char>>::empty());
        assert(spec_normalize_lines(Seq::<Seq<char>>::empty()) == Seq::<Seq<char>>::empty());
        assert(seq![spec_strip_comment(line)] + Seq::<Seq<char>>::empty() =~= seq![line]);
    }
    // the whole line is one quoted token
    assert(next_quote(line, 1) == line.len() - 1) by {
        crate::tokens::lemma_next_quote_at(line, 1, (line.len() - 1) as nat);
    }
    assert(spec_split_line(line) == seq![line]) by {
        assert(!is_space_char(line[0]));
        assert(line.subrange(0, line.len() as int) =~= line);
        assert(split_line_from(line, line.len() as nat) =~= Seq::<Seq<char>>::empty());
        assert(seq![line] + Seq::<Seq<char>>::empty() =~= seq![line]);
    }
    assert(filter_token(line) == Some(x)) by {
        assert(line.subrange(1, line.len() - 1) =~= x);
    }
    assert(spec_process_lines(seq![line]) =~= seq![x]) by {
        assert(seq![line].subrange(1, 1) =~= Seq::<Seq<char>>::empty());
        assert(spec_process_lines(Seq::<Seq<char>>::empty()) == Seq::<Seq<char>>::empty());
        assert(seq![line].subrange(1, 1) =~= Seq::<Seq<char>>::empty());
        assert(filter_tokens(spec_split_line(line)) =~= seq![x]) by {
            assert(seq![line].subrange(1, 1) =~= Seq::<Seq<char>>::empty());
            assert(spec_split_line(line).subrange(1, 1) =~= Seq::<Seq<char>>::empty());
            assert(filter_tokens(Seq::<Seq<char>>::empty()) == Seq::<Seq<char>>::empty());
            assert(seq![x] + Seq::<Seq<char>>::empty() =~= seq![x]);
        }
        assert(seq![x] + spec_process_lines(Seq::<Seq<char>>::empty()) =~= seq![x]);
    }
}

/// A dot somewhere gives a positive dot count.
proof fn lemma_dot_exists(t: Seq<char>, i: int)
    requires
        0 <= i < t.len(),
        t[i] == '.',
    ensures
        dot_count(t) >= 1,
    decreases t.len(),
{
    if i == t.len() - 1 {
    } else {
        lemma_dot_exists(t.drop_last(), i);
    }
}

/// A positive dot count names a dot.
proof fn lemma_dot_count_witness(t: Seq<char>)
    requires
        dot_count(t) >= 1,
    ensures
        exists|i: int| 0 <= i < t.len() && t[i] == '.',
    decreases t.len(),
{
    if t.last() == '.' {
        assert(t[t.len() - 1] == '.');
    } else {
        lemma_dot_count_witness(t.drop_last());
        let i = choose|i: int| 0 <= i < t.drop_last().len() && t.drop_last()[i] == '.';
        assert(t[i] == '.');
    }
}

/// With no two distinct dots, the dot count stays under two.
proof fn lemma_dot_count_le_one(t: Seq<char>)
    requires
        forall|i: int, j: int| 0 <= i < j < t.len() ==> !(t[i] == '.' && t[j] == '.'),
    ensures
        dot_count(t) <= 1,
    decreases t.len(),
{
    if t.len() > 0 {
        lemma_dot_count_le_one(t.drop_last());
        if t.last() == '.' && dot_count(t.drop_last()) >= 1 {
            lemma_dot_count_witness(t.drop_last());
            let i = choose|i: int| 0 <= i < t.drop_last().len() && t.drop_last()[i] == '.';
            assert(t[i] == '.' && t[t.len() - 1] == '.');
        }
    }
}

/// A numeral line — a rendered time or digit string — yields exactly
/// itself.
proof fn lemma_numeral_line_token(t: Seq<char>)
    requires
        t.len() >= 1,
        forall|k: int| 0 <= k < t.len() ==> is_digit_char(#[trigger] t[k]) || t[k] == '.',
        forall|i: int, j: int| 0 <= i < j < t.len() ==> !(t[i] == '.' && t[j] == '.'),
    ensures
        tokens_of_lines(seq![t]) == seq![t],
{
    assert(forall|k: int| 0 <= k < t.len() ==> !is_space_char(#[trigger] t[k]) && t[k] != '"'
        && t[k] != '!') by {
        assert(' ' as u32 == 32 && '\t' as u32 == 9 && '\r' as u32 == 13 && '\n' as u32 == 10);
        assert('"' as u32 == 34 && '!' as u32 == 33 && '.' as u32 == 46);
    }
    assert(!spec_blank(t)) by {
        assert(!is_space_char(t[0]));
    }
    assert(spec_strip_comment(t) == t) by {
        lemma_no_comment(t, 0, false);
        assert(t.subrange(0, t.len() as int) =~= t);
    }
    assert(spec_normalize_lines(seq![t]) =~= seq![t]) by {
        assert(seq![t].subrange(1, 1) =~= Seq::<Seq<char>>::empty());
        assert(spec_normalize_lines(Seq::<Seq<char>>::empty()) == Seq::<Seq<char>>::empty());
        assert(seq![spec_strip_comment(t)] + Seq::<Seq<char>>::empty() =~= seq![t]);
    }
    assert(nonspace_end(t, 0) == t.len()) by {
        lemma_nonspace_run_to(t, 0, t.len() as nat);
    }
    assert(spec_split_line(t) == seq![t]) by {
        assert(!is_space_char(t[0]));
        assert(t[0] != '"');
        assert(t.subrange(0, t.len() as int) =~= t);
        assert(split_line_from(t, t.len() as nat) =~= Seq::<Seq<char>>::empty());
        assert(seq![t] + Seq::<Seq<char>>::empty() =~= seq![t]);
    }
    assert(filter_token(t) == Some(t)) by {
        lemma_dot_count_le_one(t);
        assert(crate::tokens::numeric_shaped(t));
        if t.len() > 1 && t[0] == '"' && t.last() == '"' {
            assert(false);
        }
    }
    assert(spec_process_lines(seq![t]) =~= seq![t]) by {
        assert(seq![t].subrange(1, 1) =~= Seq::<Seq<char>>::empty());
        assert(spec_process_lines(Seq::<Seq<char>>::empty()) == Seq::<Seq<char>>::empty());
        assert(spec_split_line(t).subrange(1, 1) =~= Seq::<Seq<char>>::empty());
        assert(filter_tokens(Seq::<Seq<char>>::empty()) == Seq::<Seq<char>>::empty());
        assert(filter_tokens(spec_split_line(t)) =~= seq![t]);
        assert(seq![t] + Seq::<Seq<char>>::empty() =~= seq![t]);
    }
}

/// A whitespace-free run ends at the first space or the end.
proof fn lemma_nonspace_run_to(t: Seq<char>, i: nat, j: nat)
    requires
        i <= j <= t.len(),
        forall|k: int| i <= k < j ==> !is_space_char(#[trigger] t[k]),
        j < t.len() ==> is_space_char(t[j as int]),
    ensures
        nonspace_end(t, i) == j,
    decreases j - i,
{
    if i < j {
        lemma_nonspace_run_to(t, i + 1, j);
    }
}

/// The blank third line of both layouts yields no token.
proof fn lemma_blank_line_token()
    ensures
        tokens_of_lines(seq![Seq::<char>::empty()]) == Seq::<Seq<char>>::empty(),
{
    assert(spec_blank(Seq::<char>::empty()));
    assert(seq![Seq::<char>::empty()].subrange(1, 1) =~= Seq::<Seq<char>>::empty());
    assert(spec_normalize_lines(seq![Seq::<char>::empty()]) == spec_normalize_lines(
        Seq::<Seq<char>>::empty(),
    ));
    assert(spec_normalize_lines(Seq::<Seq<char>>::empty()) == Seq::<Seq<char>>::empty());
    assert(spec_process_lines(Seq::<Seq<char>>::empty()) == Seq::<Seq<char>>::empty());
}

/// The existence-marker line yields no token: it is neither quoted nor
/// numeric-shaped.
proof fn lemma_exists_line_token()
    ensures
        tokens_of_lines(seq!["<exists>"@]) == Seq::<Seq<char>>::empty(),
{
    reveal_strlit("<exists>");
    let t = "<exists>"@;
    assert(t.len() == 8);
    assert(t[0] == '<');
    assert(forall|k: int| 0 <= k < t.len() ==> t[k] != '!' && t[k] != '"' && !is_space_char(
        #[trigger] t[k],
    ));
    assert(!spec_blank(t)) by {
        assert(!is_space_char(t[0]));
    }
    assert(spec_strip_comment(t) == t) by {
        lemma_no_comment(t, 0, false);
        assert(t.subrange(0, t.len() as int) =~= t);
    }
    assert(spec_normalize_lines(seq![t]) =~= seq![t]) by {
        assert(seq![t].subrange(1, 1) =~= Seq::<Seq<char>>::empty());
        assert(spec_normalize_lines(Seq::<Seq<char>>::empty()) == Seq::<Seq<char>>::empty());
        assert(seq![spec_strip_comment(t)] + Seq::<Seq<char>>::empty() =~= seq![t]);
    }
    assert(nonspace_end(t, 0) == t.len()) by {
        lemma_nonspace_run_to(t, 0, t.len() as nat);
    }
    assert(spec_split_line(t) == seq![t]) by {
        assert(!is_space_char(t[0]));
        assert(t[0] != '"');
        assert(t.subrange(0, t.len() as int) =~= t);
        assert(split_line_from(t, t.len() as nat) =~= Seq::<Seq<char>>::empty());
        assert(seq![t] + Seq::<Seq<char>>::empty() =~= seq![t]);
    }
    assert(filter_token(t) is None) by {
        assert(!is_digit_char(t[0]) && t[0] != '.') by {
            assert('<' as u32 == 60);
        }
        assert(!crate::tokens::numeric_shaped(t));
        assert(!(t.len() > 1 && t[0] == '"' && t.last() == '"'));
    }
    assert(spec_process_lines(seq![t]) =~= Seq::<Seq<char>>::empty()) by {
        assert(seq![t].subrange(1, 1) =~= Seq::<Seq<char>>::empty());
        assert(spec_process_lines(Seq::<Seq<char>>::empty()) == Seq::<Seq<char>>::empty());
        assert(spec_split_line(t).subrange(1, 1) =~= Seq::<Seq<char>>::empty());
        assert(filter_tokens(Seq::<Seq<char>>::empty()) == Seq::<Seq<char>>::empty());
        assert(filter_tokens(spec_split_line(t)) =~= Seq::<Seq<char>>::empty());
    }
}

/// The true child count of a tier.
pub open spec fn actual_count(t: TierView) -> nat {
    match t {
        TierView::IntervalTier(v) => v.intervals.len(),
        TierView::PointTier(v) => v.points.len(),
    }
}

/// The true child counts of a run of tiers.
pub open spec fn actual_counts(s: Seq<TierView>) -> Seq<nat> {
    s.map_values(|t: TierView| actual_count(t))
}

/// One compact interval block reduces to the interval's value tokens.
proof fn lemma_short_interval_tokens(v: IntervalView)
    requires
        interval_wf(v),
    ensures
        tokens_of_lines(short_interval_lines(v)) == interval_tokens(v),
{
    lemma_spec_text_shape(v.xmin);
    lemma_spec_text_shape(v.xmax);
    lemma_numeral_line_token(v.xmin.spec_text());
    lemma_numeral_line_token(v.xmax.spec_text());
    lemma_quoted_line_token(v.text);
    assert(short_interval_lines(v) =~= seq![v.xmin.spec_text()] + seq![v.xmax.spec_text()]
        + seq![quoted(v.text)]);
    lemma_tokens_append(seq![v.xmin.spec_text()] + seq![v.xmax.spec_text()], seq![quoted(v.text)]);
    lemma_tokens_append(seq![v.xmin.spec_text()], seq![v.xmax.spec_text()]);
    assert(tokens_of_lines(short_interval_lines(v)) =~= interval_tokens(v));
}

/// One compact point block reduces to the point's value tokens.
proof fn lemma_short_point_tokens(v: PointView)
    requires
        point_wf(v),
    ensures
        tokens_of_lines(short_point_lines(v)) == point_tokens(v),
{
    lemma_spec_text_shape(v.number);
    lemma_numeral_line_token(v.number.spec_text());
    lemma_quoted_line_token(v.mark);
    assert(short_point_lines(v) =~= seq![v.number.spec_text()] + seq![quoted(v.mark)]);
    lemma_tokens_append(seq![v.number.spec_text()], seq![quoted(v.mark)]);
    assert(tokens_of_lines(short_point_lines(v)) =~= point_tokens(v));
}

/// A compact interval run reduces to the intervals' value tokens.
proof fn lemma_short_intervals_tokens(s: Seq<IntervalView>)
    requires
        forall|k: int| 0 <= k < s.len() ==> interval_wf(#[trigger] s[k]),
    ensures
        tokens_of_lines(short_intervals_lines(s)) == intervals_tokens(s),
    decreases s.len(),
{
    if s.len() == 0 {
        assert(short_intervals_lines(s) == Seq::<Seq<char>>::empty());
        assert(spec_normalize_lines(Seq::<Seq<char>>::empty()) == Seq::<Seq<char>>::empty());
        assert(spec_process_lines(Seq::<Seq<char>>::empty()) == Seq::<Seq<char>>::empty());
        assert(intervals_tokens(s) == Seq::<Seq<char>>::empty());
    } else {
        let rest = s.subrange(1, s.len() as int);
        lemma_short_intervals_tokens(rest);
        lemma_short_interval_tokens(s[0]);
        lemma_tokens_append(short_interval_lines(s[0]), short_intervals_lines(rest));
    }
}

/// A compact point run reduces to the points' value tokens.
proof fn lemma_short_points_tokens(s: Seq<PointView>)
    requires
        forall|k: int| 0 <= k < s.len() ==> point_wf(#[trigger] s[k]),
    ensures
        tokens_of_lines(short_points_lines(s)) == points_tokens(s),
    decreases s.len(),
{
    if s.len() == 0 {
        assert(short_points_lines(s) == Seq::<Seq<char>>::empty());
        assert(spec_normalize_lines(Seq::<Seq<char>>::empty()) == Seq::<Seq<char>>::empty());
        assert(spec_process_lines(Seq::<Seq<char>>::empty()) == Seq::<Seq<char>>::empty());
        assert(points_tokens(s) == Seq::<Seq<char>>::empty());
    } else {
        let rest = s.subrange(1, s.len() as int);
        lemma_short_points_tokens(rest);
        lemma_short_point_tokens(s[0]);
        lemma_tokens_append(short_point_lines(s[0]), short_points_lines(rest));
    }
}

/// The digit string of a count is a numeral line.
proof fn lemma_count_line_token(n: nat)
    ensures
        tokens_of_lines(seq![spec_digits(n)]) == seq![spec_digits(n)],
{
    lemma_spec_digits_len(n);
    lemma_numeral_line_token(spec_digits(n));
}

/// One compact tier block reduces to the tier's value tokens, with the
/// tier's true child count declared.
proof fn lemma_short_tier_tokens(t: TierView)
    requires
        tier_wf(t),
    ensures
        tokens_of_lines(short_tier_lines(t)) == tier_tokens(t, actual_count(t)),
{
    reveal_strlit("IntervalTier");
    reveal_strlit("TextTier");
    match t {
        TierView::IntervalTier(v) => {
            assert(forall|k: int| 0 <= k < "IntervalTier"@.len() ==> "IntervalTier"@[k] != '"'
                && "IntervalTier"@[k] != '!');
            lemma_quoted_line_token("IntervalTier"@);
            lemma_quoted_line_token(v.name);
            lemma_spec_text_shape(v.xmin);
            lemma_spec_text_shape(v.xmax);
            lemma_numeral_line_token(v.xmin.spec_text());
            lemma_numeral_line_token(v.xmax.spec_text());
            lemma_count_line_token(v.intervals.len());
            lemma_short_intervals_tokens(v.intervals);
            let head = seq![
                quoted("IntervalTier"@),
                quoted(v.name),
                v.xmin.spec_text(),
                v.xmax.spec_text(),
                spec_digits(v.intervals.len()),
            ];
            assert(head =~= seq![quoted("IntervalTier"@)] + seq![quoted(v.name)] + seq![
                v.xmin.spec_text(),
            ] + seq![v.xmax.spec_text()] + seq![spec_digits(v.intervals.len())]);
            lemma_tokens_append(
                seq![quoted("IntervalTier"@)] + seq![quoted(v.name)] + seq![v.xmin.spec_text()]
                    + seq![v.xmax.spec_text()],
                seq![spec_digits(v.intervals.len())],
            );
            lemma_tokens_append(
                seq![quoted("IntervalTier"@)] + seq![quoted(v.name)] + seq![v.xmin.spec_text()],
                seq![v.xmax.spec_text()],
            );
            lemma_tokens_append(
                seq![quoted("IntervalTier"@)] + seq![quoted(v.name)],
                seq![v.xmin.spec_text()],
            );
            lemma_tokens_append(seq![quoted("IntervalTier"@)], seq![quoted(v.name)]);
            lemma_tokens_append(head, short_intervals_lines(v.intervals));
            assert(short_tier_lines(t) == head + short_intervals_lines(v.intervals));
            assert(tokens_of_lines(short_tier_lines(t)) =~= tier_tokens(t, actual_count(t)));
        },
        TierView::PointTier(v) => {
            assert(forall|k: int| 0 <= k < "TextTier"@.len() ==> "TextTier"@[k] != '"'
                && "TextTier"@[k] != '!');
            lemma_quoted_line_token("TextTier"@);
            lemma_quoted_line_token(v.name);
            lemma_spec_text_shape(v.xmin);
            lemma_spec_text_shape(v.xmax);
            lemma_numeral_line_token(v.xmin.spec_text());
            lemma_numeral_line_token(v.xmax.spec_text());
            lemma_count_line_token(v.points.len());
            lemma_short_points_tokens(v.points);
            let head = seq![
                quoted("TextTier"@),
                quoted(v.name),
                v.xmin.spec_text(),
                v.xmax.spec_text(),
                spec_digits(v.points.len()),
            ];
            assert(head =~= seq![quoted("TextTier"@)] + seq![quoted(v.name)] + seq![
                v.xmin.spec_text(),
            ] + seq![v.xmax.spec_text()] + seq![spec_digits(v.points.len())]);
            lemma_tokens_append(
                seq![quoted("TextTier"@)] + seq![quoted(v.name)] + seq![v.xmin.spec_text()]
                    + seq![v.xmax.spec_text()],
                seq![spec_digits(v.points.len())],
            );
            lemma_tokens_append(
                seq![quoted("TextTier"@)] + seq![quoted(v.name)] + seq![v.xmin.spec_text()],
                seq![v.xmax.spec_text()],
            );
            lemma_tokens_append(
                seq![quoted("TextTier"@)] + seq![quoted(v.name)],
                seq![v.xmin.spec_text()],
            );
            lemma_tokens_append(seq![quoted("TextTier"@)], seq![quoted(v.name)]);
            lemma_tokens_append(head, short_points_lines(v.points));
            assert(short_tier_lines(t) == head + short_points_lines(v.points));
            assert(tokens_of_lines(short_tier_lines(t)) =~= tier_tokens(t, actual_count(t)));
        },
    }
}

/// A compact tier run reduces to the tiers' value tokens, with true counts
/// declared.
proof fn lemma_short_tiers_tokens(s: Seq<TierView>)
    requires
        forall|k: int| 0 <= k < s.len() ==> tier_wf(#[trigger] s[k]),
    ensures
        tokens_of_lines(short_tiers_lines(s)) == tiers_tokens(s, actual_counts(s)),
    decreases s.len(),
{
    if s.len() == 0 {
        assert(short_tiers_lines(s) == Seq::<Seq<char>>::empty());
        assert(spec_normalize_lines(Seq::<Seq<char>>::empty()) == Seq::<Seq<char>>::empty());
        assert(spec_process_lines(Seq::<Seq<char>>::empty()) == Seq::<Seq<char>>::empty());
        assert(tiers_tokens(s, actual_counts(s)) == Seq::<Seq<char>>::empty());
    } else {
        let rest = s.subrange(1, s.len() as int);
        lemma_short_tiers_tokens(rest);
        lemma_short_tier_tokens(s[0]);
        lemma_tokens_append(short_tier_lines(s[0]), short_tiers_lines(rest));
        assert(actual_counts(s)[0] == actual_count(s[0]));
        assert(actual_counts(s).subrange(1, actual_counts(s).len() as int) =~= actual_counts(
            rest,
        ));
    }
}

/// The compact layout of a document reduces, under line normalization and
/// the token filter, to exactly the document's value tokens with the true
/// counts declared.
pub proof fn lemma_short_lines_tokens(d: TextGridView)
    requires
        document_wf(d),
    ensures
        tokens_of_lines(short_lines(d)) == document_tokens(d, d.tiers.len(), actual_counts(
            d.tiers,
        )),
{
    reveal_strlit("ooTextFile");
    reveal_strlit("TextGrid");
    assert(forall|k: int| 0 <= k < "ooTextFile"@.len() ==> "ooTextFile"@[k] != '"'
        && "ooTextFile"@[k] != '!');
    assert(forall|k: int| 0 <= k < "TextGrid"@.len() ==> "TextGrid"@[k] != '"' && "TextGrid"@[k]
        != '!');
    lemma_quoted_line_token("ooTextFile"@);
    lemma_quoted_line_token("TextGrid"@);
    lemma_blank_line_token();
    lemma_spec_text_shape(d.xmin);
    lemma_spec_text_shape(d.xmax);
    lemma_numeral_line_token(d.xmin.spec_text());
    lemma_numeral_line_token(d.xmax.spec_text());
    lemma_exists_line_token();
    lemma_count_line_token(d.tiers.len());
    lemma_short_tiers_tokens(d.tiers);
    let header = seq![
        quoted("ooTextFile"@),
        quoted("TextGrid"@),
        Seq::<char>::empty(),
        d.xmin.spec_text(),
        d.xmax.spec_text(),
        "<exists>"@,
        spec_digits(d.tiers.len()),
    ];
    assert(header =~= seq![quoted("ooTextFile"@)] + seq![quoted("TextGrid"@)] + seq![
        Seq::<char>::empty(),
    ] + seq![d.xmin.spec_text()] + seq![d.xmax.spec_text()] + seq!["<exists>"@] + seq![
        spec_digits(d.tiers.len()),
    ]);
    lemma_tokens_append(
        seq![quoted("ooTextFile"@)] + seq![quoted("TextGrid"@)] + seq![Seq::<char>::empty()]
            + seq![d.xmin.spec_text()] + seq![d.xmax.spec_text()] + seq!["<exists>"@],
        seq![spec_digits(d.tiers.len())],
    );
    lemma_tokens_append(
        seq![quoted("ooTextFile"@)] + seq![quoted("TextGrid"@)] + seq![Seq::<char>::empty()]
            + seq![d.xmin.spec_text()] + seq![d.xmax.spec_text()],
        seq!["<exists>"@],
    );
    lemma_tokens_append(
        seq![quoted("ooTextFile"@)] + seq![quoted("TextGrid"@)] + seq![Seq::<char>::empty()]
            + seq![d.xmin.spec_text()],
        seq![d.xmax.spec_text()],
    );
    lemma_tokens_append(
        seq![quoted("ooTextFile"@)] + seq![quoted("TextGrid"@)] + seq![Seq::<char>::empty()],
        seq![d.xmin.spec_text()],
    );
    lemma_tokens_append(
        seq![quoted("ooTextFile"@)] + seq![quoted("TextGrid"@)],
        seq![Seq::<char>::empty()],
    );
    lemma_tokens_append(seq![quoted("ooTextFile"@)], seq![quoted("TextGrid"@)]);
    lemma_tokens_append(header, short_tiers_lines(d.tiers));
    assert(short_lines(d) == header + short_tiers_lines(d.tiers));
    assert(tokens_of_lines(short_lines(d)) =~= document_tokens(d, d.tiers.len(), actual_counts(
        d.tiers,
    )));
}

/// The whole-pipeline round trip for the compact layout: rendering a
/// well-formed document and running the full parse pipeline — line
/// normalization, the token filter, and the sentinel-driven decoder —
/// restores the document exactly, under whichever display name the reader
/// supplies.
pub proof fn lemma_compact_round_trip(d: TextGridView, name: Seq<char>)
    requires
        document_wf(d),
    ensures
        spec_decode_document(tokens_of_lines(short_lines(d)), name)
            == Outcome::<TextGridView>::Good(
            TextGridView { xmin: d.xmin, xmax: d.xmax, tiers: d.tiers, name },
            tokens_of_lines(short_lines(d)).len(),
        ),
{
    lemma_short_lines_tokens(d);
    assert(actual_counts(d.tiers).len() == d.tiers.len());
    assert(forall|k: int| 0 <= k < actual_counts(d.tiers).len() ==> #[trigger] actual_counts(
        d.tiers,
    )[k] <= u64::MAX) by {
        assert(forall|k: int| 0 <= k < d.tiers.len() ==> actual_count(
            #[trigger] d.tiers[k],
        ) <= u64::MAX);
    }
    lemma_decode_restores_document(d, name, d.tiers.len(), actual_counts(d.tiers));
}

/// In a quote-free stretch where every word begins with a character that
/// is neither a digit nor a dot, the token filter keeps nothing.
proof fn lemma_split_all_dropped(s: Seq<char>, i: nat)
    requires
        i <= s.len(),
        forall|k: int| i <= k < s.len() ==> s[k] != '"',
        forall|k: int|
            i <= k < s.len() && (k == i || is_space_char(s[k - 1])) && !is_space_char(
                #[trigger] s[k],
            ) ==> !(is_digit_char(s[k]) || s[k] == '.'),
    ensures
        filter_tokens(split_line_from(s, i)) == Seq::<Seq<char>>::empty(),
    decreases s.len() - i,
{
    if i >= s.len() {
        assert(filter_tokens(Seq::<Seq<char>>::empty()) == Seq::<Seq<char>>::empty());
    } else if is_space_char(s[i as int]) {
        lemma_split_all_dropped(s, i + 1);
    } else {
        assert(s[i as int] != '"');
        let j = nonspace_end(s, i);
        lemma_nonspace_extent(s, i);
        assert(i < j <= s.len());
        let tok = s.subrange(i as int, j as int);
        assert(tok[0] == s[i as int]);
        assert(!(is_digit_char(tok[0]) || tok[0] == '.'));
        assert(filter_token(tok) is None) by {
            assert(!crate::tokens::numeric_shaped(tok));
            assert(tok[0] != '"');
        }
        lemma_split_all_dropped(s, j);
        assert(split_line_from(s, i) == seq![tok] + split_line_from(s, j));
        assert((seq![tok] + split_line_from(s, j)).subrange(
            1,
            (seq![tok] + split_line_from(s, j)).len() as int,
        ) =~= split_line_from(s, j));
        assert((seq![tok] + split_line_from(s, j))[0] == tok);
        assert(filter_tokens(seq![tok] + split_line_from(s, j)) =~= Seq::<Seq<char>>::empty());
    }
}

/// The whitespace-free run at `i` runs to the first space after it.
proof fn lemma_nonspace_extent(s: Seq<char>, i: nat)
    requires
        i <= s.len(),
    ensures
        i <= nonspace_end(s, i) <= s.len(),
        i < s.len() && !is_space_char(s[i as int]) ==> i < nonspace_end(s, i),
        forall|k: int| i <= k < nonspace_end(s, i) ==> !is_space_char(#[trigger] s[k]),
        nonspace_end(s, i) < s.len() ==> is_space_char(s[nonspace_end(s, i) as int]),
    decreases s.len() - i,
{
    if i < s.len() && !is_space_char(s[i as int]) {
        lemma_nonspace_extent(s, i + 1);
    }
}

/// In a line whose label words each begin with a character that is neither
/// a digit nor a dot, followed after a space by one final numeral run, the
/// filter keeps exactly the numeral.
proof fn lemma_split_label_numeral(s: Seq<char>, i: nat, v: nat)
    requires
        i <= v < s.len(),
        forall|k: int| i <= k < v ==> s[k] != '"',
        forall|k: int|
            i <= k < v && (k == i || is_space_char(s[k - 1])) && !is_space_char(#[trigger] s[k])
                ==> !(is_digit_char(s[k]) || s[k] == '.'),
        v > i ==> is_space_char(s[v - 1]),
        forall|k: int| v <= k < s.len() ==> (is_digit_char(#[trigger] s[k]) || s[k] == '.'),
        dot_count(s.subrange(v as int, s.len() as int)) <= 1,
    ensures
        filter_tokens(split_line_from(s, i)) == seq![s.subrange(v as int, s.len() as int)],
    decreases s.len() - i,
{
    assert(forall|k: int| v <= k < s.len() ==> !is_space_char(#[trigger] s[k]) && s[k] != '"') by {
        assert(' ' as u32 == 32 && '\t' as u32 == 9 && '\r' as u32 == 13 && '\n' as u32 == 10);
        assert('"' as u32 == 34 && '.' as u32 == 46);
    }
    if i == v {
        assert(!is_space_char(s[i as int]));
        assert(s[i as int] != '"');
        lemma_nonspace_extent(s, i);
        assert(nonspace_end(s, i) == s.len()) by {
            if nonspace_end(s, i) < s.len() {
                assert(is_space_char(s[nonspace_end(s, i) as int]));
            }
        }
        let tok = s.subrange(i as int, s.len() as int);
        assert(split_line_from(s, i) == seq![tok] + split_line_from(s, s.len() as nat));
        assert(split_line_from(s, s.len() as nat) =~= Seq::<Seq<char>>::empty());
        assert(split_line_from(s, i) =~= seq![tok]);
        assert(filter_token(tok) == Some(tok)) by {
            assert(crate::tokens::numeric_shaped(tok));
            assert(tok[0] != '"');
        }
        assert(seq![tok].subrange(1, 1) =~= Seq::<Seq<char>>::empty());
        assert(filter_tokens(Seq::<Seq<char>>::empty()) == Seq::<Seq<char>>::empty());
        assert(filter_tokens(seq![tok]) =~= seq![tok]);
    } else if is_space_char(s[i as int]) {
        lemma_split_label_numeral(s, i + 1, v);
    } else {
        assert(s[i as int] != '"');
        let j = nonspace_end(s, i);
        lemma_nonspace_extent(s, i);
        assert(i < j <= s.len());
        // the run cannot reach into the numeral: the space before it stops
        // the run
        assert(j <= v) by {
            if j > v {
                assert(is_space_char(s[v - 1]) && i <= v - 1 < j);
                assert(!is_space_char(s[v - 1]));
            }
        }
        let tok = s.subrange(i as int, j as int);
        assert(tok[0] == s[i as int]);
        assert(!(is_digit_char(tok[0]) || tok[0] == '.'));
        assert(filter_token(tok) is None) by {
            assert(!crate::tokens::numeric_shaped(tok));
            assert(tok[0] != '"');
        }
        lemma_split_label_numeral(s, j, v);
        assert(split_line_from(s, i) == seq![tok] + split_line_from(s, j));
        assert((seq![tok] + split_line_from(s, j)).subrange(
            1,
            (seq![tok] + split_line_from(s, j)).len() as int,
        ) =~= split_line_from(s, j));
        assert((seq![tok] + split_line_from(s, j))[0] == tok);
        assert(filter_tokens(seq![tok] + split_line_from(s, j)) =~= seq![
            s.subrange(v as int, s.len() as int),
        ]);
    }
}

/// In a line whose label words each begin with a character that is neither
/// a digit nor a dot, followed after a space by one final quoted span of
/// safe text, the filter keeps exactly the text inside the quotes.
proof fn lemma_split_label_quoted(s: Seq<char>, i: nat, v: nat)
    requires
        i <= v,
        v + 1 < s.len(),
        forall|k: int| i <= k < v ==> s[k] != '"',
        forall|k: int|
            i <= k < v && (k == i || is_space_char(s[k - 1])) && !is_space_char(#[trigger] s[k])
                ==> !(is_digit_char(s[k]) || s[k] == '.'),
        v > i ==> is_space_char(s[v - 1]),
        s[v as int] == '"',
        s[s.len() - 1] == '"',
        forall|k: int| v < k < s.len() - 1 ==> s[k] != '"',
    ensures
        filter_tokens(split_line_from(s, i)) == seq![s.subrange(v as int + 1, s.len() - 1)],
    decreases s.len() - i,
{
    if i == v {
        assert(!is_space_char(s[i as int])) by {
            assert('"' as u32 == 34);
        }
        assert(next_quote(s, i + 1) == s.len() - 1) by {
            crate::tokens::lemma_next_quote_at(s, i + 1, (s.len() - 1) as nat);
        }
        let tok = s.subrange(i as int, s.len() as int);
        assert(split_line_from(s, i) == seq![tok] + split_line_from(s, s.len() as nat));
        assert(split_line_from(s, s.len() as nat) =~= Seq::<Seq<char>>::empty());
        assert(split_line_from(s, i) =~= seq![tok]);
        assert(tok.len() > 1 && tok[0] == '"' && tok.last() == '"');
        assert(filter_token(tok) == Some(tok.subrange(1, tok.len() - 1)));
        assert(tok.subrange(1, tok.len() - 1) =~= s.subrange(v as int + 1, s.len() - 1));
        assert(seq![tok].subrange(1, 1) =~= Seq::<Seq<char>>::empty());
        assert(filter_tokens(Seq::<Seq<char>>::empty()) == Seq::<Seq<char>>::empty());
        assert(filter_tokens(seq![tok]) =~= seq![s.subrange(v as int + 1, s.len() - 1)]);
    } else if is_space_char(s[i as int]) {
        lemma_split_label_quoted(s, i + 1, v);
    } else {
        assert(s[i as int] != '"');
        let j = nonspace_end(s, i);
        lemma_nonspace_extent(s, i);
        assert(i < j <= s.len());
        assert(j <= v) by {
            if j > v {
                assert(i <= v < j);
                assert(forall|k: int| i <= k < j ==> !is_space_char(#[trigger] s[k]));
                if v > i {
                    assert(is_space_char(s[v - 1]) && i <= v - 1 < j);
                    assert(!is_space_char(s[v - 1]));
                }
            }
        }
        let tok = s.subrange(i as int, j as int);
        assert(tok[0] == s[i as int]);
        assert(!(is_digit_char(tok[0]) || tok[0] == '.'));
        assert(filter_token(tok) is None) by {
            assert(!crate::tokens::numeric_shaped(tok));
            assert(tok[0] != '"');
        }
        lemma_split_label_quoted(s, j, v);
        assert(split_line_from(s, i) == seq![tok] + split_line_from(s, j));
        assert((seq![tok] + split_line_from(s, j)).subrange(
            1,
            (seq![tok] + split_line_from(s, j)).len() as int,
        ) =~= split_line_from(s, j));
        assert((seq![tok] + split_line_from(s, j))[0] == tok);
        assert(filter_tokens(seq![tok] + split_line_from(s, j)) =~= seq![
            s.subrange(v as int + 1, s.len() - 1),
        ]);
    }
}

/// Packages a split-and-filter result of one non-blank, comment-free line
/// into the whole-pipeline form.
proof fn lemma_single_line(line: Seq<char>, toks: Seq<Seq<char>>)
    requires
        !spec_blank(line),
        forall|k: int| 0 <= k < line.len() ==> line[k] != '!',
        filter_tokens(spec_split_line(line)) == toks,
    ensures
        tokens_of_lines(seq![line]) == toks,
{
    assert(spec_strip_comment(line) == line) by {
        lemma_no_comment(line, 0, false);
        assert(line.subrange(0, line.len() as int) =~= line);
    }
    assert(spec_normalize_lines(seq![line]) =~= seq![line]) by {
        assert(seq![line].subrange(1, 1) =~= Seq::<Seq<char>>::empty());
        assert(spec_normalize_lines(Seq::<Seq<char>>::empty()) == Seq::<Seq<char>>::empty());
        assert(seq![spec_strip_comment(line)] + Seq::<Seq<char>>::empty() =~= seq![line]);
    }
    assert(spec_process_lines(seq![line]) =~= toks) by {
        assert(seq![line].subrange(1, 1) =~= Seq::<Seq<char>>::empty());
        assert(spec_process_lines(Seq::<Seq<char>>::empty()) == Seq::<Seq<char>>::empty());
        assert(toks + Seq::<Seq<char>>::empty() =~= toks);
    }
}

/// Whitespace, quote, bang, digit and dot are pairwise distinct character
/// classes.
proof fn lemma_char_classes()
    ensures
        forall|c: char| is_digit_char(c) ==> !is_space_char(c) && c != '"' && c != '!' && c != '.',
        !is_space_char('"') && !is_space_char('!') && !is_space_char('.') && !is_space_char('['),
        !is_digit_char('"') && !is_digit_char('!') && !is_digit_char('.') && !is_digit_char('['),
        is_space_char(' ') && is_space_char('\t'),
{
    assert(' ' as u32 == 32 && '\t' as u32 == 9 && '\r' as u32 == 13 && '\n' as u32 == 10);
    assert('"' as u32 == 34 && '!' as u32 == 33 && '.' as u32 == 46 && '[' as u32 == 91);
    assert(forall|c: char| is_digit_char(c) ==> 48 <= c as u32 <= 57);
}

/// A label followed by a numeral value: the filter keeps the numeral
/// alone.
proof fn lemma_label_numeral_line(pre: Seq<char>, t: Seq<char>)
    requires
        pre.len() >= 1,
        is_space_char(pre[pre.len() - 1]),
        forall|k: int| 0 <= k < pre.len() ==> pre[k] != '"' && pre[k] != '!',
        forall|k: int|
            0 <= k < pre.len() && (k == 0 || is_space_char(pre[k - 1])) && !is_space_char(
                #[trigger] pre[k],
            ) ==> !(is_digit_char(pre[k]) || pre[k] == '.'),
        t.len() >= 1,
        forall|k: int| 0 <= k < t.len() ==> (is_digit_char(#[trigger] t[k]) || t[k] == '.'),
        dot_count(t) <= 1,
    ensures
        tokens_of_lines(seq![pre + t]) == seq![t],
{
    lemma_char_classes();
    let line = pre + t;
    let v = pre.len();
    assert(forall|k: int| 0 <= k < v ==> line[k] == pre[k]);
    assert(forall|k: int| v <= k < line.len() ==> line[k] == t[k - v]);
    assert(line.subrange(v as int, line.len() as int) =~= t);
    lemma_split_label_numeral(line, 0, v as nat);
    assert(!spec_blank(line)) by {
        assert(!is_space_char(line[v as int]));
    }
    assert(forall|k: int| 0 <= k < line.len() ==> line[k] != '!');
    lemma_single_line(line, seq![t]);
}

/// A label followed by a quoted value of safe text: the filter keeps the
/// text inside the quotes alone.
proof fn lemma_label_quoted_line(pre: Seq<char>, x: Seq<char>)
    requires
        pre.len() >= 1,
        is_space_char(pre[pre.len() - 1]),
        forall|k: int| 0 <= k < pre.len() ==> pre[k] != '"' && pre[k] != '!',
        forall|k: int|
            0 <= k < pre.len() && (k == 0 || is_space_char(pre[k - 1])) && !is_space_char(
                #[trigger] pre[k],
            ) ==> !(is_digit_char(pre[k]) || pre[k] == '.'),
        forall|k: int| 0 <= k < x.len() ==> x[k] != '"' && x[k] != '!',
    ensures
        tokens_of_lines(seq![pre + quoted(x)]) == seq![x],
{
    lemma_char_classes();
    let line = pre + quoted(x);
    let v = pre.len();
    assert(forall|k: int| 0 <= k < v ==> line[k] == pre[k]);
    assert(line[v as int] == '"');
    assert(line[line.len() - 1] == '"');
    assert(forall|k: int| v < k < line.len() - 1 ==> line[k] == x[k - v - 1]);
    lemma_split_label_quoted(line, 0, v as nat);
    assert(line.subrange(v as int + 1, line.len() - 1) =~= x);
    assert(!spec_blank(line)) by {
        assert(!is_space_char(line[v as int]));
    }
    assert(forall|k: int| 0 <= k < line.len() ==> line[k] != '!');
    lemma_single_line(line, seq![x]);
}

/// A line of label words alone, every word beginning outside the numeral
/// characters: the filter keeps nothing.
proof fn lemma_dropped_line(line: Seq<char>)
    requires
        line.len() >= 1,
        exists|k: int| 0 <= k < line.len() && !is_space_char(#[trigger] line[k]),
        forall|k: int| 0 <= k < line.len() ==> line[k] != '"' && line[k] != '!',
        forall|k: int|
            0 <= k < line.len() && (k == 0 || is_space_char(line[k - 1])) && !is_space_char(
                #[trigger] line[k],
            ) ==> !(is_digit_char(line[k]) || line[k] == '.'),
    ensures
        tokens_of_lines(seq![line]) == Seq::<Seq<char>>::empty(),
{
    lemma_split_all_dropped(line, 0);
    assert(!spec_blank(line));
    lemma_single_line(line, Seq::<Seq<char>>::empty());
}

/// The verbose item-index line of a tier or child: label words and a
/// bracketed index, nothing the filter keeps.
proof fn lemma_bracket_line(pre: Seq<char>, idx: nat)
    requires
        pre.len() >= 2,
        is_space_char(pre[0]),
        pre[pre.len() - 1] == '[',
        forall|k: int| 0 <= k < pre.len() ==> pre[k] != '"' && pre[k] != '!',
        forall|k: int|
            0 <= k < pre.len() && (k == 0 || is_space_char(pre[k - 1])) && !is_space_char(
                #[trigger] pre[k],
            ) ==> !(is_digit_char(pre[k]) || pre[k] == '.'),
        !is_space_char(pre[pre.len() - 1]),
    ensures
        tokens_of_lines(seq![pre + spec_digits(idx) + "]:"@]) == Seq::<Seq<char>>::empty(),
{
    lemma_char_classes();
    reveal_strlit("]:");
    lemma_spec_digits_len(idx);
    let ds = spec_digits(idx);
    let line = pre + ds + "]:"@;
    assert(forall|k: int| 0 <= k < pre.len() ==> line[k] == pre[k]);
    assert(forall|k: int| pre.len() <= k < pre.len() + ds.len() ==> line[k] == ds[k - pre.len()]);
    assert(line[line.len() - 2] == ']' && line[line.len() - 1] == ':');
    assert(']' as u32 == 93 && ':' as u32 == 58);
    assert(forall|k: int| 0 <= k < line.len() ==> line[k] != '"' && line[k] != '!');
    // every word start lies in the label part: after it no whitespace
    // occurs at all
    assert(forall|k: int| pre.len() - 1 <= k < line.len() ==> !is_space_char(#[trigger] line[k]));
    lemma_dropped_line(line);
}

/// The characters the verbose labels start with are outside the numeral
/// characters.
proof fn lemma_label_chars()
    ensures
        !is_digit_char('i') && 'i' != '.' && !is_space_char('i'),
        !is_digit_char('x') && 'x' != '.' && !is_space_char('x'),
        !is_digit_char('t') && 't' != '.' && !is_space_char('t'),
        !is_digit_char('n') && 'n' != '.' && !is_space_char('n'),
        !is_digit_char('m') && 'm' != '.' && !is_space_char('m'),
        !is_digit_char('s') && 's' != '.' && !is_space_char('s'),
        !is_digit_char('p') && 'p' != '.' && !is_space_char('p'),
        !is_digit_char('c') && 'c' != '.' && !is_space_char('c'),
        !is_digit_char('F') && 'F' != '.' && !is_space_char('F'),
        !is_digit_char('O') && 'O' != '.' && !is_space_char('O'),
        !is_digit_char('=') && '=' != '.' && !is_space_char('='),
        !is_digit_char('<') && '<' != '.' && !is_space_char('<'),
        !is_digit_char('[') && '[' != '.' && !is_space_char('['),
{
    assert('i' as u32 == 105 && 'x' as u32 == 120 && 't' as u32 == 116 && 'n' as u32 == 110
        && 'm' as u32 == 109 && 's' as u32 == 115 && 'p' as u32 == 112 && 'c' as u32 == 99
        && 'F' as u32 == 70 && 'O' as u32 == 79 && '=' as u32 == 61 && '<' as u32 == 60 && '['
        as u32 == 91);
    assert(' ' as u32 == 32 && '\t' as u32 == 9 && '\r' as u32 == 13 && '\n' as u32 == 10);
}

/// One verbose interval block reduces to the interval's value tokens; the
/// block's one-based index leaves no token at all.
proof fn lemma_long_interval_tokens(v: IntervalView, idx: nat)
    requires
        interval_wf(v),
    ensures
        tokens_of_lines(long_interval_lines(v, idx)) == interval_tokens(v),
{
    lemma_label_chars();
    lemma_char_classes();
    reveal_strlit("\t\tintervals [");
    reveal_strlit("\t\t\txmin = ");
    reveal_strlit("\t\t\txmax = ");
    reveal_strlit("\t\t\ttext = ");
    lemma_spec_text_shape(v.xmin);
    lemma_spec_text_shape(v.xmax);
    lemma_dot_count_le_one(v.xmin.spec_text());
    lemma_dot_count_le_one(v.xmax.spec_text());
    lemma_bracket_line("\t\tintervals ["@, idx);
    lemma_label_numeral_line("\t\t\txmin = "@, v.xmin.spec_text());
    lemma_label_numeral_line("\t\t\txmax = "@, v.xmax.spec_text());
    lemma_label_quoted_line("\t\t\ttext = "@, v.text);
    let l1 = "\t\tintervals ["@ + spec_digits(idx) + "]:"@;
    let l2 = "\t\t\txmin = "@ + v.xmin.spec_text();
    let l3 = "\t\t\txmax = "@ + v.xmax.spec_text();
    let l4 = "\t\t\ttext = "@ + quoted(v.text);
    assert(long_interval_lines(v, idx) =~= seq![l1] + seq![l2] + seq![l3] + seq![l4]);
    lemma_tokens_append(seq![l1] + seq![l2] + seq![l3], seq![l4]);
    lemma_tokens_append(seq![l1] + seq![l2], seq![l3]);
    lemma_tokens_append(seq![l1], seq![l2]);
    assert(tokens_of_lines(long_interval_lines(v, idx)) =~= interval_tokens(v));
}

/// One verbose point block reduces to the point's value tokens.
proof fn lemma_long_point_tokens(v: PointView, idx: nat)
    requires
        point_wf(v),
    ensures
        tokens_of_lines(long_point_lines(v, idx)) == point_tokens(v),
{
    lemma_label_chars();
    lemma_char_classes();
    reveal_strlit("\t\tpoints [");
    reveal_strlit("\t\t\tnumber = ");
    reveal_strlit("\t\t\tmark = ");
    lemma_spec_text_shape(v.number);
    lemma_dot_count_le_one(v.number.spec_text());
    lemma_bracket_line("\t\tpoints ["@, idx);
    lemma_label_numeral_line("\t\t\tnumber = "@, v.number.spec_text());
    lemma_label_quoted_line("\t\t\tmark = "@, v.mark);
    let l1 = "\t\tpoints ["@ + spec_digits(idx) + "]:"@;
    let l2 = "\t\t\tnumber = "@ + v.number.spec_text();
    let l3 = "\t\t\tmark = "@ + quoted(v.mark);
    assert(long_point_lines(v, idx) =~= seq![l1] + seq![l2] + seq![l3]);
    lemma_tokens_append(seq![l1] + seq![l2], seq![l3]);
    lemma_tokens_append(seq![l1], seq![l2]);
    assert(tokens_of_lines(long_point_lines(v, idx)) =~= point_tokens(v));
}

/// A verbose interval run reduces to the intervals' value tokens,
/// whichever index the numbering starts at.
proof fn lemma_long_intervals_tokens(s: Seq<IntervalView>, idx: nat)
    requires
        forall|k: int| 0 <= k < s.len() ==> interval_wf(#[trigger] s[k]),
    ensures
        tokens_of_lines(long_intervals_lines(s, idx)) == intervals_tokens(s),
    decreases s.len(),
{
    if s.len() == 0 {
        assert(long_intervals_lines(s, idx) == Seq::<Seq<char>>::empty());
        assert(spec_normalize_lines(Seq::<Seq<char>>::empty()) == Seq::<Seq<char>>::empty());
        assert(spec_process_lines(Seq::<Seq<char>>::empty()) == Seq::<Seq<char>>::empty());
        assert(intervals_tokens(s) == Seq::<Seq<char>>::empty());
    } else {
        let rest = s.subrange(1, s.len() as int);
        lemma_long_intervals_tokens(rest, idx + 1);
        lemma_long_interval_tokens(s[0], idx);
        lemma_tokens_append(long_interval_lines(s[0], idx), long_intervals_lines(rest, idx + 1));
    }
}

/// A verbose point run reduces to the points' value tokens.
proof fn lemma_long_points_tokens(s: Seq<PointView>, idx: nat)
    requires
        forall|k: int| 0 <= k < s.len() ==> point_wf(#[trigger] s[k]),
    ensures
        tokens_of_lines(long_points_lines(s, idx)) == points_tokens(s),
    decreases s.len(),
{
    if s.len() == 0 {
        assert(long_points_lines(s, idx) == Seq::<Seq<char>>::empty());
        assert(spec_normalize_lines(Seq::<Seq<char>>::empty()) == Seq::<Seq<char>>::empty());
        assert(spec_process_lines(Seq::<Seq<char>>::empty()) == Seq::<Seq<char>>::empty());
        assert(points_tokens(s) == Seq::<Seq<char>>::empty());
    } else {
        let rest = s.subrange(1, s.len() as int);
        lemma_long_points_tokens(rest, idx + 1);
        lemma_long_point_tokens(s[0], idx);
        lemma_tokens_append(long_point_lines(s[0], idx), long_points_lines(rest, idx + 1));
    }
}

/// One verbose tier block reduces to the tier's value tokens with the true
/// child count declared.
#[verifier::rlimit(60)]
proof fn lemma_long_tier_tokens(t: TierView, idx: nat)
    requires
        tier_wf(t),
    ensures
        tokens_of_lines(long_tier_lines(t, idx)) == tier_tokens(t, actual_count(t)),
{
    lemma_label_chars();
    lemma_char_classes();
    reveal_strlit("\titem [");
    reveal_strlit("\t\tclass = \"IntervalTier\"");
    reveal_strlit("\t\tclass = \"TextTier\"");
    reveal_strlit("\t\tclass = ");
    reveal_strlit("IntervalTier");
    reveal_strlit("TextTier");
    reveal_strlit("\t\tname = ");
    reveal_strlit("\t\txmin = ");
    reveal_strlit("\t\txmax = ");
    reveal_strlit("\t\tintervals: size = ");
    reveal_strlit("\t\tpoints: size = ");
    lemma_bracket_line("\titem ["@, idx);
    match t {
        TierView::IntervalTier(v) => {
            lemma_spec_text_shape(v.xmin);
            lemma_spec_text_shape(v.xmax);
            lemma_dot_count_le_one(v.xmin.spec_text());
            lemma_dot_count_le_one(v.xmax.spec_text());
            lemma_spec_digits_len(v.intervals.len());
            assert("\t\tclass = \"IntervalTier\""@ =~= "\t\tclass = "@ + quoted(
                "IntervalTier"@,
            ));
            lemma_label_quoted_line("\t\tclass = "@, "IntervalTier"@);
            lemma_label_quoted_line("\t\tname = "@, v.name);
            lemma_label_numeral_line("\t\txmin = "@, v.xmin.spec_text());
            lemma_label_numeral_line("\t\txmax = "@, v.xmax.spec_text());
            lemma_dot_count_le_one(spec_digits(v.intervals.len()));
            lemma_label_numeral_line(
                "\t\tintervals: size = "@,
                spec_digits(v.intervals.len()),
            );
            lemma_long_intervals_tokens(v.intervals, 1);
            let l1 = "\titem ["@ + spec_digits(idx) + "]:"@;
            let l2 = "\t\tclass = \"IntervalTier\""@;
            let l3 = "\t\tname = "@ + quoted(v.name);
            let l4 = "\t\txmin = "@ + v.xmin.spec_text();
            let l5 = "\t\txmax = "@ + v.xmax.spec_text();
            let l6 = "\t\tintervals: size = "@ + spec_digits(v.intervals.len());
            assert(long_tier_lines(t, idx) =~= seq![l1] + seq![l2] + seq![l3] + seq![l4] + seq![
                l5,
            ] + seq![l6] + long_intervals_lines(v.intervals, 1));
            lemma_tokens_append(
                seq![l1] + seq![l2] + seq![l3] + seq![l4] + seq![l5] + seq![l6],
                long_intervals_lines(v.intervals, 1),
            );
            lemma_tokens_append(seq![l1] + seq![l2] + seq![l3] + seq![l4] + seq![l5], seq![l6]);
            lemma_tokens_append(seq![l1] + seq![l2] + seq![l3] + seq![l4], seq![l5]);
            lemma_tokens_append(seq![l1] + seq![l2] + seq![l3], seq![l4]);
            lemma_tokens_append(seq![l1] + seq![l2], seq![l3]);
            lemma_tokens_append(seq![l1], seq![l2]);
            assert(tokens_of_lines(long_tier_lines(t, idx)) =~= tier_tokens(
                t,
                actual_count(t),
            ));
        },
        TierView::PointTier(v) => {
            lemma_spec_text_shape(v.xmin);
            lemma_spec_text_shape(v.xmax);
            lemma_dot_count_le_one(v.xmin.spec_text());
            lemma_dot_count_le_one(v.xmax.spec_text());
            lemma_spec_digits_len(v.points.len());
            assert("\t\tclass = \"TextTier\""@ =~= "\t\tclass = "@ + quoted("TextTier"@));
            lemma_label_quoted_line("\t\tclass = "@, "TextTier"@);
            lemma_label_quoted_line("\t\tname = "@, v.name);
            lemma_label_numeral_line("\t\txmin = "@, v.xmin.spec_text());
            lemma_label_numeral_line("\t\txmax = "@, v.xmax.spec_text());
            lemma_dot_count_le_one(spec_digits(v.points.len()));
            lemma_label_numeral_line("\t\tpoints: size = "@, spec_digits(v.points.len()));
            lemma_long_points_tokens(v.points, 1);
            let l1 = "\titem ["@ + spec_digits(idx) + "]:"@;
            let l2 = "\t\tclass = \"TextTier\""@;
            let l3 = "\t\tname = "@ + quoted(v.name);
            let l4 = "\t\txmin = "@ + v.xmin.spec_text();
            let l5 = "\t\txmax = "@ + v.xmax.spec_text();
            let l6 = "\t\tpoints: size = "@ + spec_digits(v.points.len());
            assert(long_tier_lines(t, idx) =~= seq![l1] + seq![l2] + seq![l3] + seq![l4] + seq![
                l5,
            ] + seq![l6] + long_points_lines(v.points, 1));
            lemma_tokens_append(
                seq![l1] + seq![l2] + seq![l3] + seq![l4] + seq![l5] + seq![l6],
                long_points_lines(v.points, 1),
            );
            lemma_tokens_append(seq![l1] + seq![l2] + seq![l3] + seq![l4] + seq![l5], seq![l6]);
            lemma_tokens_append(seq![l1] + seq![l2] + seq![l3] + seq![l4], seq![l5]);
            lemma_tokens_append(seq![l1] + seq![l2] + seq![l3], seq![l4]);
            lemma_tokens_append(seq![l1] + seq![l2], seq![l3]);
            lemma_tokens_append(seq![l1], seq![l2]);
            assert(tokens_of_lines(long_tier_lines(t, idx)) =~= tier_tokens(
                t,
                actual_count(t),
            ));
        },
    }
}

/// A verbose tier run reduces to the tiers' value tokens with true counts
/// declared.
proof fn lemma_long_tiers_tokens(s: Seq<TierView>, idx: nat)
    requires
        forall|k: int| 0 <= k < s.len() ==> tier_wf(#[trigger] s[k]),
    ensures
        tokens_of_lines(long_tiers_lines(s, idx)) == tiers_tokens(s, actual_counts(s)),
    decreases s.len(),
{
    if s.len() == 0 {
        assert(long_tiers_lines(s, idx) == Seq::<Seq<char>>::empty());
        assert(spec_normalize_lines(Seq::<Seq<char>>::empty()) == Seq::<Seq<char>>::empty());
        assert(spec_process_lines(Seq::<Seq<char>>::empty()) == Seq::<Seq<char>>::empty());
        assert(tiers_tokens(s, actual_counts(s)) == Seq::<Seq<char>>::empty());
    } else {
        let rest = s.subrange(1, s.len() as int);
        lemma_long_tiers_tokens(rest, idx + 1);
        lemma_long_tier_tokens(s[0], idx);
        lemma_tokens_append(long_tier_lines(s[0], idx), long_tiers_lines(rest, idx + 1));
        assert(actual_counts(s)[0] == actual_count(s[0]));
        assert(actual_counts(s).subrange(1, actual_counts(s).len() as int) =~= actual_counts(
            rest,
        ));
    }
}

/// The verbose layout of a document reduces, under line normalization and
/// the token filter, to exactly the document's value tokens with the true
/// counts declared.
pub proof fn lemma_long_lines_tokens(d: TextGridView)
    requires
        document_wf(d),
    ensures
        tokens_of_lines(long_lines(d)) == document_tokens(d, d.tiers.len(), actual_counts(
            d.tiers,
        )),
{
    lemma_label_chars();
    lemma_char_classes();
    reveal_strlit("File type = \"ooTextFile\"");
    reveal_strlit("Object class = \"TextGrid\"");
    reveal_strlit("File type = ");
    reveal_strlit("Object class = ");
    reveal_strlit("ooTextFile");
    reveal_strlit("TextGrid");
    reveal_strlit("xmin = ");
    reveal_strlit("xmax = ");
    reveal_strlit("tiers? <exists>");
    reveal_strlit("size = ");
    reveal_strlit("item []:");
    lemma_spec_text_shape(d.xmin);
    lemma_spec_text_shape(d.xmax);
    lemma_dot_count_le_one(d.xmin.spec_text());
    lemma_dot_count_le_one(d.xmax.spec_text());
    lemma_spec_digits_len(d.tiers.len());
    assert("File type = \"ooTextFile\""@ =~= "File type = "@ + quoted("ooTextFile"@));
    lemma_label_quoted_line("File type = "@, "ooTextFile"@);
    assert("Object class = \"TextGrid\""@ =~= "Object class = "@ + quoted("TextGrid"@));
    lemma_label_quoted_line("Object class = "@, "TextGrid"@);
    lemma_blank_line_token();
    lemma_label_numeral_line("xmin = "@, d.xmin.spec_text());
    lemma_label_numeral_line("xmax = "@, d.xmax.spec_text());
    assert(!is_space_char("tiers? <exists>"@[0]));
    lemma_dropped_line("tiers? <exists>"@);
    lemma_dot_count_le_one(spec_digits(d.tiers.len()));
    lemma_label_numeral_line("size = "@, spec_digits(d.tiers.len()));
    assert(!is_space_char("item []:"@[0]));
    lemma_dropped_line("item []:"@);
    lemma_long_tiers_tokens(d.tiers, 1);
    let l1 = "File type = \"ooTextFile\""@;
    let l2 = "Object class = \"TextGrid\""@;
    let l3 = Seq::<char>::empty();
    let l4 = "xmin = "@ + d.xmin.spec_text();
    let l5 = "xmax = "@ + d.xmax.spec_text();
    let l6 = "tiers? <exists>"@;
    let l7 = "size = "@ + spec_digits(d.tiers.len());
    let l8 = "item []:"@;
    assert(long_lines(d) =~= seq![l1] + seq![l2] + seq![l3] + seq![l4] + seq![l5] + seq![l6]
        + seq![l7] + seq![l8] + long_tiers_lines(d.tiers, 1));
    lemma_tokens_append(
        seq![l1] + seq![l2] + seq![l3] + seq![l4] + seq![l5] + seq![l6] + seq![l7] + seq![l8],
        long_tiers_lines(d.tiers, 1),
    );
    lemma_tokens_append(
        seq![l1] + seq![l2] + seq![l3] + seq![l4] + seq![l5] + seq![l6] + seq![l7],
        seq![l8],
    );
    lemma_tokens_append(seq![l1] + seq![l2] + seq![l3] + seq![l4] + seq![l5] + seq![l6], seq![l7]);
    lemma_tokens_append(seq![l1] + seq![l2] + seq![l3] + seq![l4] + seq![l5], seq![l6]);
    lemma_tokens_append(seq![l1] + seq![l2] + seq![l3] + seq![l4], seq![l5]);
    lemma_tokens_append(seq![l1] + seq![l2] + seq![l3], seq![l4]);
    lemma_tokens_append(seq![l1] + seq![l2], seq![l3]);
    lemma_tokens_append(seq![l1], seq![l2]);
    assert(tokens_of_lines(long_lines(d)) =~= document_tokens(d, d.tiers.len(), actual_counts(
        d.tiers,
    )));
}

/// The whole-pipeline round trip for the verbose layout: rendering a
/// well-formed document with labels, indices and indentation and running
/// the full parse pipeline restores the document exactly, under whichever
/// display name the reader supplies.
pub proof fn lemma_verbose_round_trip(d: TextGridView, name: Seq<char>)
    requires
        document_wf(d),
    ensures
        spec_decode_document(tokens_of_lines(long_lines(d)), name) == Outcome::<
            TextGridView,
        >::Good(
            TextGridView { xmin: d.xmin, xmax: d.xmax, tiers: d.tiers, name },
            tokens_of_lines(long_lines(d)).len(),
        ),
{
    lemma_long_lines_tokens(d);
    assert(actual_counts(d.tiers).len() == d.tiers.len());
    assert(forall|k: int| 0 <= k < actual_counts(d.tiers).len() ==> #[trigger] actual_counts(
        d.tiers,
    )[k] <= u64::MAX) by {
        assert(forall|k: int| 0 <= k < d.tiers.len() ==> actual_count(
            #[trigger] d.tiers[k],
        ) <= u64::MAX);
    }
    lemma_decode_restores_document(d, name, d.tiers.len(), actual_counts(d.tiers));
}

} // verus!
