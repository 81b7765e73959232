//! The sentinel-driven decoder.
//!
//! The declared sizes in the format are unreliable; the only trustworthy
//! signal for where one record ends and the next begins is the in-band
//! tier-kind token.  The decoder therefore reads child records until the
//! front of the token queue is such a sentinel, and uses every declared
//! count only for an advisory comparison afterwards.

use crate::decimal::{spec_from_text, Decimal};
use crate::error::ParseError;
use crate::interval::{Interval, IntervalView, Tier as IntervalTier, TierView as IntervalTierView};
use crate::point::{Point, PointView, Tier as PointTier, TierView as PointTierView};
use crate::textgrid::{TextGrid, TextGridView, Tier, TierView};
use crate::tokens::{find_match, number_match, spec_token_u64, TokenQueue};
use crate::warning::Warning;
use vstd::prelude::*;

verus! {

/// The view of a fatal decode failure.
pub ghost enum ErrView {
    WrongFileType(Seq<char>),
    WrongObjectClass(Seq<char>),
    MissingDocumentXmin,
    MissingDocumentXmax,
    UnparsableDocumentXmin(Seq<char>),
    UnparsableDocumentXmax(Seq<char>),
    MissingNumber,
    MalformedNumber(Seq<char>),
    MissingTierName,
    UnknownTierType(Seq<char>),
}

/// The view of an error value.
pub open spec fn err_view(e: ParseError) -> ErrView {
    match e {
        ParseError::WrongFileType { found } => ErrView::WrongFileType(found@),
        ParseError::WrongObjectClass { found } => ErrView::WrongObjectClass(found@),
        ParseError::MissingDocumentXmin => ErrView::MissingDocumentXmin,
        ParseError::MissingDocumentXmax => ErrView::MissingDocumentXmax,
        ParseError::UnparsableDocumentXmin { token } => ErrView::UnparsableDocumentXmin(token@),
        ParseError::UnparsableDocumentXmax { token } => ErrView::UnparsableDocumentXmax(token@),
        ParseError::MissingNumber => ErrView::MissingNumber,
        ParseError::MalformedNumber { token } => ErrView::MalformedNumber(token@),
        ParseError::MissingTierName => ErrView::MissingTierName,
        ParseError::UnknownTierType { found } => ErrView::UnknownTierType(found@),
    }
}

/// A decode step: the decoded value and the position after it, or the
/// failure.
pub ghost enum Outcome<T> {
    Good(T, nat),
    Bad(ErrView),
}

/// The two tier-kind sentinel tokens.
pub open spec fn is_sentinel(t: Seq<char>) -> bool {
    t == "IntervalTier"@ || t == "TextTier"@
}

/// Pulling the next number: tokens up to the first numeric match are
/// skipped; the match is read as a decimal.
pub open spec fn spec_pull_number(q: Seq<Seq<char>>, i: nat) -> Outcome<Decimal> {
    let k = find_match(q, i);
    if k >= q.len() {
        Outcome::Bad(ErrView::MissingNumber)
    } else {
        match spec_from_text(number_match(q[k as int]).unwrap()) {
            Some(d) => Outcome::Good(d, k + 1),
            None => Outcome::Bad(ErrView::MalformedNumber(number_match(q[k as int]).unwrap())),
        }
    }
}

/// Pulling the next integer: like a number, but the match must be a whole
/// number the machine can hold.
pub open spec fn spec_pull_integer(q: Seq<Seq<char>>, i: nat) -> Outcome<u64> {
    let k = find_match(q, i);
    if k >= q.len() {
        Outcome::Bad(ErrView::MissingNumber)
    } else {
        match spec_token_u64(number_match(q[k as int]).unwrap()) {
            Some(v) => Outcome::Good(v, k + 1),
            None => Outcome::Bad(ErrView::MalformedNumber(number_match(q[k as int]).unwrap())),
        }
    }
}

/// One interval record: two numbers, then the label token (an exhausted
/// queue yields an empty label).
pub open spec fn spec_decode_interval(q: Seq<Seq<char>>, i: nat) -> Outcome<IntervalView> {
    match spec_pull_number(q, i) {
        Outcome::Bad(e) => Outcome::Bad(e),
        Outcome::Good(x1, p1) => match spec_pull_number(q, p1) {
            Outcome::Bad(e) => Outcome::Bad(e),
            Outcome::Good(x2, p2) => {
                if p2 < q.len() {
                    Outcome::Good(
                        IntervalView { xmin: x1, xmax: x2, text: q[p2 as int] },
                        p2 + 1,
                    )
                } else {
                    Outcome::Good(IntervalView { xmin: x1, xmax: x2, text: Seq::empty() }, p2)
                }
            },
        },
    }
}

/// One point record: a number, then the mark token (an exhausted queue
/// yields an empty mark).
pub open spec fn spec_decode_point(q: Seq<Seq<char>>, i: nat) -> Outcome<PointView> {
    match spec_pull_number(q, i) {
        Outcome::Bad(e) => Outcome::Bad(e),
        Outcome::Good(x, p) => {
            if p < q.len() {
                Outcome::Good(PointView { number: x, mark: q[p as int] }, p + 1)
            } else {
                Outcome::Good(PointView { number: x, mark: Seq::empty() }, p)
            }
        },
    }
}

/// A successful pull lands strictly past the scan start and within bounds.
pub proof fn lemma_pull_number_advances(q: Seq<Seq<char>>, i: nat)
    requires
        i <= q.len(),
    ensures
        spec_pull_number(q, i) matches Outcome::Good(_, j) ==> i < j <= q.len(),
        spec_pull_integer(q, i) matches Outcome::Good(_, j) ==> i < j <= q.len(),
{
    crate::tokens::lemma_find_match_bounds(q, i);
}

/// A successful interval record lands strictly past the scan start.
pub proof fn lemma_decode_interval_advances(q: Seq<Seq<char>>, i: nat)
    requires
        i <= q.len(),
    ensures
        spec_decode_interval(q, i) matches Outcome::Good(_, j) ==> i < j <= q.len(),
{
    lemma_pull_number_advances(q, i);
    match spec_pull_number(q, i) {
        Outcome::Good(_, p1) => {
            lemma_pull_number_advances(q, p1);
        },
        Outcome::Bad(_) => {},
    }
}

/// A successful point record lands strictly past the scan start.
pub proof fn lemma_decode_point_advances(q: Seq<Seq<char>>, i: nat)
    requires
        i <= q.len(),
    ensures
        spec_decode_point(q, i) matches Outcome::Good(_, j) ==> i < j <= q.len(),
{
    lemma_pull_number_advances(q, i);
}

/// Interval records, one after another, until the front token is a tier
/// sentinel or the queue is exhausted.
pub open spec fn spec_decode_intervals(q: Seq<Seq<char>>, i: nat) -> Outcome<Seq<IntervalView>>
    decreases q.len() - i,
{
    if i >= q.len() || is_sentinel(q[i as int]) {
        Outcome::Good(Seq::empty(), i)
    } else {
        match spec_decode_interval(q, i) {
            Outcome::Bad(e) => Outcome::Bad(e),
            Outcome::Good(v, j) => {
                if i < j <= q.len() {
                    match spec_decode_intervals(q, j) {
                        Outcome::Bad(e) => Outcome::Bad(e),
                        Outcome::Good(vs, p) => Outcome::Good(seq![v] + vs, p),
                    }
                } else {
                    Outcome::Bad(ErrView::MissingNumber)
                }
            },
        }
    }
}

/// Point records, one after another, until the front token is a tier
/// sentinel or the queue is exhausted.
pub open spec fn spec_decode_points(q: Seq<Seq<char>>, i: nat) -> Outcome<Seq<PointView>>
    decreases q.len() - i,
{
    if i >= q.len() || is_sentinel(q[i as int]) {
        Outcome::Good(Seq::empty(), i)
    } else {
        match spec_decode_point(q, i) {
            Outcome::Bad(e) => Outcome::Bad(e),
            Outcome::Good(v, j) => {
                if i < j <= q.len() {
                    match spec_decode_points(q, j) {
                        Outcome::Bad(e) => Outcome::Bad(e),
                        Outcome::Good(vs, p) => Outcome::Good(seq![v] + vs, p),
                    }
                } else {
                    Outcome::Bad(ErrView::MissingNumber)
                }
            },
        }
    }
}

/// One tier record: the kind sentinel, the name, two bounds, the advisory
/// child count, then children up to the next sentinel.  The child count
/// never bounds the loop; it only feeds a count-mismatch advisory.
pub open spec fn spec_decode_tier(q: Seq<Seq<char>>, i: nat) -> Outcome<TierView> {
    if i >= q.len() {
        Outcome::Bad(ErrView::MissingTierName)
    } else if !is_sentinel(q[i as int]) {
        Outcome::Bad(ErrView::UnknownTierType(q[i as int]))
    } else if i + 1 >= q.len() {
        Outcome::Bad(ErrView::MissingTierName)
    } else {
        let name = q[i as int + 1];
        match spec_pull_number(q, i + 2) {
            Outcome::Bad(e) => Outcome::Bad(e),
            Outcome::Good(xmin, p1) => match spec_pull_number(q, p1) {
                Outcome::Bad(e) => Outcome::Bad(e),
                Outcome::Good(xmax, p2) => match spec_pull_integer(q, p2) {
                    Outcome::Bad(e) => Outcome::Bad(e),
                    Outcome::Good(_, p3) => {
                        if q[i as int] == "IntervalTier"@ {
                            match spec_decode_intervals(q, p3) {
                                Outcome::Bad(e) => Outcome::Bad(e),
                                Outcome::Good(ivs, p4) => Outcome::Good(
                                    TierView::IntervalTier(
                                        IntervalTierView { name, xmin, xmax, intervals: ivs },
                                    ),
                                    p4,
                                ),
                            }
                        } else {
                            match spec_decode_points(q, p3) {
                                Outcome::Bad(e) => Outcome::Bad(e),
                                Outcome::Good(pts, p4) => Outcome::Good(
                                    TierView::PointTier(
                                        PointTierView { name, xmin, xmax, points: pts },
                                    ),
                                    p4,
                                ),
                            }
                        }
                    },
                },
            },
        }
    }
}

/// The child runs never retreat.
pub proof fn lemma_decode_children_advance(q: Seq<Seq<char>>, i: nat)
    requires
        i <= q.len(),
    ensures
        spec_decode_intervals(q, i) matches Outcome::Good(_, j) ==> i <= j <= q.len(),
        spec_decode_points(q, i) matches Outcome::Good(_, j) ==> i <= j <= q.len(),
    decreases q.len() - i,
{
    if !(i >= q.len() || is_sentinel(q[i as int])) {
        lemma_decode_interval_advances(q, i);
        match spec_decode_interval(q, i) {
            Outcome::Good(_, j) => {
                if i < j <= q.len() {
                    lemma_decode_children_advance(q, j);
                }
            },
            Outcome::Bad(_) => {},
        }
        lemma_decode_point_advances(q, i);
        match spec_decode_point(q, i) {
            Outcome::Good(_, j) => {
                if i < j <= q.len() {
                    lemma_decode_children_advance(q, j);
                }
            },
            Outcome::Bad(_) => {},
        }
    }
}

/// A successful tier record lands strictly past the scan start.
pub proof fn lemma_decode_tier_advances(q: Seq<Seq<char>>, i: nat)
    requires
        i <= q.len(),
    ensures
        spec_decode_tier(q, i) matches Outcome::Good(_, j) ==> i < j <= q.len(),
{
    if i < q.len() && is_sentinel(q[i as int]) && i + 1 < q.len() {
        lemma_pull_number_advances(q, i + 2);
        match spec_pull_number(q, i + 2) {
            Outcome::Good(_, p1) => {
                lemma_pull_number_advances(q, p1);
                match spec_pull_number(q, p1) {
                    Outcome::Good(_, p2) => {
                        lemma_pull_number_advances(q, p2);
                        match spec_pull_integer(q, p2) {
                            Outcome::Good(_, p3) => {
                                lemma_decode_children_advance(q, p3);
                            },
                            Outcome::Bad(_) => {},
                        }
                    },
                    Outcome::Bad(_) => {},
                }
            },
            Outcome::Bad(_) => {},
        }
    }
}

/// Tier records, one after another, until the queue is exhausted.
pub open spec fn spec_decode_tiers(q: Seq<Seq<char>>, i: nat) -> Outcome<Seq<TierView>>
    decreases q.len() - i,
{
    if i >= q.len() {
        Outcome::Good(Seq::empty(), i)
    } else {
        match spec_decode_tier(q, i) {
            Outcome::Bad(e) => Outcome::Bad(e),
            Outcome::Good(t, j) => {
                if i < j <= q.len() {
                    match spec_decode_tiers(q, j) {
                        Outcome::Bad(e) => Outcome::Bad(e),
                        Outcome::Good(ts, p) => Outcome::Good(seq![t] + ts, p),
                    }
                } else {
                    Outcome::Bad(ErrView::MissingTierName)
                }
            },
        }
    }
}

/// The characters the document-bound parser keeps of a token: its digits
/// and dots, in order.
pub open spec fn num_chars_of(t: Seq<char>) -> Seq<char>
    decreases t.len(),
{
    if t.len() == 0 {
        Seq::empty()
    } else {
        let rest = num_chars_of(t.drop_last());
        if crate::decimal::is_digit_char(t.last()) || t.last() == '.' {
            rest.push(t.last())
        } else {
            rest
        }
    }
}

/// The whole document, from the token queue: the two fixed header
/// identifiers, the two bounds, the advisory tier count, then tiers until
/// the queue is exhausted.  The display name comes from the caller, never
/// from the tokens.
pub open spec fn spec_decode_document(q: Seq<Seq<char>>, name: Seq<char>) -> Outcome<
    TextGridView,
> {
    if q.len() == 0 || q[0] != "ooTextFile"@ {
        Outcome::Bad(
            ErrView::WrongFileType(
                if q.len() == 0 {
                    Seq::empty()
                } else {
                    q[0]
                },
            ),
        )
    } else if q.len() == 1 || q[1] != "TextGrid"@ {
        Outcome::Bad(
            ErrView::WrongObjectClass(
                if q.len() == 1 {
                    Seq::empty()
                } else {
                    q[1]
                },
            ),
        )
    } else if q.len() == 2 {
        Outcome::Bad(ErrView::MissingDocumentXmin)
    } else {
        match spec_from_text(num_chars_of(q[2])) {
            None => Outcome::Bad(ErrView::UnparsableDocumentXmin(q[2])),
            Some(xmin) => {
                if q.len() == 3 {
                    Outcome::Bad(ErrView::MissingDocumentXmax)
                } else {
                    match spec_from_text(num_chars_of(q[3])) {
                        None => Outcome::Bad(ErrView::UnparsableDocumentXmax(q[3])),
                        Some(xmax) => match spec_pull_integer(q, 4) {
                            Outcome::Bad(e) => Outcome::Bad(e),
                            Outcome::Good(_, p) => match spec_decode_tiers(q, p) {
                                Outcome::Bad(e) => Outcome::Bad(e),
                                Outcome::Good(ts, _) => Outcome::Good(
                                    TextGridView { xmin, xmax, tiers: ts, name },
                                    q.len() as nat,
                                ),
                            },
                        },
                    }
                }
            },
        }
    }
}

/// The token views a queue walks over; they never change, only the
/// position moves.
pub open spec fn qtokens(q: TokenQueue) -> Seq<Seq<char>> {
    crate::tokens::views(q.items@)
}

/// Pops tokens until one holds a numeric match, and reads that match as a
/// decimal.  Fails with a missing-number error when the queue runs out
/// first, and with a malformed-number error when the matched text's value
/// cannot be held exactly.
pub fn pull_next_number(q: &mut TokenQueue) -> (r: Result<Decimal, ParseError>)
    requires
        old(q).wf(),
    ensures
        final(q).wf(),
        qtokens(*final(q)) == qtokens(*old(q)),
        ({
            let qv = qtokens(*old(q));
            match spec_pull_number(qv, old(q).pos as nat) {
                Outcome::Good(d, j) => r == Ok::<Decimal, ParseError>(d) && final(q).pos == j,
                Outcome::Bad(e) => (r matches Err(pe) && err_view(pe) == e) && final(q).pos
                    == qv.len(),
            }
        }),
{
    let ghost qv = qtokens(*old(q));
    loop
        invariant
            q.wf(),
            q.items@ == old(q).items@,
            qv == qtokens(*q),
            qv.len() == q.items@.len(),
            old(q).pos <= q.pos,
            find_match(qv, old(q).pos as nat) == find_match(qv, q.pos as nat),
        decreases q.items@.len() - q.pos,
    {
        proof {
            crate::tokens::lemma_find_match_bounds(qv, q.pos as nat);
        }
        if q.pos == q.items.len() {
            proof {
                assert(find_match(qv, q.pos as nat) == qv.len());
            }
            return Err(ParseError::MissingNumber);
        }
        let ghost cur = q.pos as nat;
        let t = q.items[q.pos].clone();
        q.pos = q.pos + 1;
        proof {
            assert(t@ == qv[cur as int]);
        }
        match crate::tokens::token_number_match(t.as_str()) {
            Some(m) => {
                proof {
                    assert(number_match(qv[cur as int]) is Some);
                    assert(find_match(qv, cur) == cur);
                }
                match Decimal::from_text(m.as_str()) {
                    Some(d) => {
                        return Ok(d);
                    },
                    None => {
                        q.pos = q.items.len();
                        return Err(ParseError::MalformedNumber { token: m });
                    },
                }
            },
            None => {
                proof {
                    assert(number_match(qv[cur as int]) is None);
                }
            },
        }
    }
}

/// Pops tokens until one holds a numeric match, and reads that match as an
/// unsigned integer.  A match with a fraction, or one too large to hold,
/// fails with a malformed-number error.
pub fn pull_next_integer(q: &mut TokenQueue) -> (r: Result<u64, ParseError>)
    requires
        old(q).wf(),
    ensures
        final(q).wf(),
        qtokens(*final(q)) == qtokens(*old(q)),
        ({
            let qv = qtokens(*old(q));
            match spec_pull_integer(qv, old(q).pos as nat) {
                Outcome::Good(v, j) => r == Ok::<u64, ParseError>(v) && final(q).pos == j,
                Outcome::Bad(e) => (r matches Err(pe) && err_view(pe) == e) && final(q).pos
                    == qv.len(),
            }
        }),
{
    let ghost qv = qtokens(*old(q));
    loop
        invariant
            q.wf(),
            q.items@ == old(q).items@,
            qv == qtokens(*q),
            qv.len() == q.items@.len(),
            old(q).pos <= q.pos,
            find_match(qv, old(q).pos as nat) == find_match(qv, q.pos as nat),
        decreases q.items@.len() - q.pos,
    {
        proof {
            crate::tokens::lemma_find_match_bounds(qv, q.pos as nat);
        }
        if q.pos == q.items.len() {
            proof {
                assert(find_match(qv, q.pos as nat) == qv.len());
            }
            return Err(ParseError::MissingNumber);
        }
        let ghost cur = q.pos as nat;
        let t = q.items[q.pos].clone();
        q.pos = q.pos + 1;
        proof {
            assert(t@ == qv[cur as int]);
        }
        match crate::tokens::token_number_match(t.as_str()) {
            Some(m) => {
                proof {
                    assert(number_match(qv[cur as int]) is Some);
                    assert(find_match(qv, cur) == cur);
                }
                match crate::tokens::read_u64(m.as_str()) {
                    Some(v) => {
                        return Ok(v);
                    },
                    None => {
                        q.pos = q.items.len();
                        return Err(ParseError::MalformedNumber { token: m });
                    },
                }
            },
            None => {
                proof {
                    assert(number_match(qv[cur as int]) is None);
                }
            },
        }
    }
}

/// Checks the two fixed header identifiers at the front of the queue,
/// consuming them.  A missing token counts as an empty one.
pub fn verify_start_of_textgrid(q: &mut TokenQueue) -> (r: Result<(), ParseError>)
    requires
        old(q).wf(),
    ensures
        final(q).wf(),
        qtokens(*final(q)) == qtokens(*old(q)),
        ({
            let qv = qtokens(*old(q));
            let p0 = old(q).pos as nat;
            if p0 >= qv.len() || qv[p0 as int] != "ooTextFile"@ {
                (r matches Err(e) && err_view(e) == ErrView::WrongFileType(
                    if p0 >= qv.len() {
                        Seq::<char>::empty()
                    } else {
                        qv[p0 as int]
                    },
                ))
            } else if p0 + 1 >= qv.len() || qv[p0 as int + 1] != "TextGrid"@ {
                (r matches Err(e) && err_view(e) == ErrView::WrongObjectClass(
                    if p0 + 1 >= qv.len() {
                        Seq::<char>::empty()
                    } else {
                        qv[p0 as int + 1]
                    },
                ))
            } else {
                r is Ok && final(q).pos == p0 + 2
            }
        }),
{
    proof {
        reveal_strlit("ooTextFile");
        reveal_strlit("TextGrid");
    }
    let ghost qv = qtokens(*old(q));
    let ghost p0 = old(q).pos as nat;
    let file_type: String = if q.pos < q.items.len() {
        let t = q.items[q.pos].clone();
        proof {
            assert(t@ == qv[p0 as int]);
        }
        q.pos = q.pos + 1;
        t
    } else {
        String::new()
    };
    if !crate::textgrid::string_eq_str(&file_type, "ooTextFile") {
        return Err(ParseError::WrongFileType { found: file_type });
    }
    proof {
        assert(p0 < qv.len() && qv[p0 as int] == "ooTextFile"@) by {
            if p0 >= qv.len() {
                assert(file_type@ =~= Seq::<char>::empty());
                assert("ooTextFile"@.len() == 10);
            }
        }
    }
    let object_class: String = if q.pos < q.items.len() {
        let t = q.items[q.pos].clone();
        proof {
            assert(t@ == qv[p0 as int + 1]);
        }
        q.pos = q.pos + 1;
        t
    } else {
        String::new()
    };
    if !crate::textgrid::string_eq_str(&object_class, "TextGrid") {
        return Err(ParseError::WrongObjectClass { found: object_class });
    }
    proof {
        assert(p0 + 1 < qv.len() && qv[p0 as int + 1] == "TextGrid"@) by {
            if p0 + 1 >= qv.len() {
                assert(object_class@ =~= Seq::<char>::empty());
                assert("TextGrid"@.len() == 8);
            }
        }
    }
    Ok(())
}

/// One interval record: two numbers pulled from the queue, then the label
/// token; an exhausted queue yields an empty label.
pub fn parse_interval(q: &mut TokenQueue) -> (r: Result<Interval, ParseError>)
    requires
        old(q).wf(),
    ensures
        final(q).wf(),
        qtokens(*final(q)) == qtokens(*old(q)),
        ({
            let qv = qtokens(*old(q));
            match spec_decode_interval(qv, old(q).pos as nat) {
                Outcome::Good(v, j) => (r matches Ok(iv) && iv@ == v) && final(q).pos == j,
                Outcome::Bad(e) => (r matches Err(pe) && err_view(pe) == e),
            }
        }),
{
    let xmin = match pull_next_number(q) {
        Ok(d) => d,
        Err(e) => {
            return Err(e);
        },
    };
    let xmax = match pull_next_number(q) {
        Ok(d) => d,
        Err(e) => {
            return Err(e);
        },
    };
    let text: String = if q.pos < q.items.len() {
        let t = q.items[q.pos].clone();
        q.pos = q.pos + 1;
        t
    } else {
        String::new()
    };
    Ok(Interval::new(xmin, xmax, text))
}

/// One point record: a number pulled from the queue, then the mark token;
/// an exhausted queue yields an empty mark.
pub fn parse_point(q: &mut TokenQueue) -> (r: Result<Point, ParseError>)
    requires
        old(q).wf(),
    ensures
        final(q).wf(),
        qtokens(*final(q)) == qtokens(*old(q)),
        ({
            let qv = qtokens(*old(q));
            match spec_decode_point(qv, old(q).pos as nat) {
                Outcome::Good(v, j) => (r matches Ok(p) && p@ == v) && final(q).pos == j,
                Outcome::Bad(e) => (r matches Err(pe) && err_view(pe) == e),
            }
        }),
{
    let number = match pull_next_number(q) {
        Ok(d) => d,
        Err(e) => {
            return Err(e);
        },
    };
    let mark: String = if q.pos < q.items.len() {
        let t = q.items[q.pos].clone();
        q.pos = q.pos + 1;
        t
    } else {
        String::new()
    };
    Ok(Point::new(number, mark))
}

/// Whether the front token is one of the two tier-kind sentinels.
fn front_is_sentinel(q: &TokenQueue) -> (r: bool)
    requires
        q.wf(),
    ensures
        r == (q.pos < qtokens(*q).len() && is_sentinel(qtokens(*q)[q.pos as int])),
{
    proof {
        if (q.pos as nat) < qtokens(*q).len() {
            assert(q.remaining()[0] == qtokens(*q)[q.pos as int]);
        }
    }
    q.front_is("IntervalTier") || q.front_is("TextTier")
}

/// One tier record: the kind sentinel, the name, two bounds and the
/// advisory child count, then children up to the next sentinel.  When
/// `warn` is set, a declared count differing from the decoded count yields
/// an advisory.
pub fn parse_one_tier(q: &mut TokenQueue, warn: bool) -> (r: Result<
    (Tier, Vec<Warning>),
    ParseError,
>)
    requires
        old(q).wf(),
    ensures
        final(q).wf(),
        qtokens(*final(q)) == qtokens(*old(q)),
        ({
            let qv = qtokens(*old(q));
            match spec_decode_tier(qv, old(q).pos as nat) {
                Outcome::Good(v, j) => (r matches Ok(tw) && tw.0@ == v && (!warn ==> tw.1@.len()
                    == 0)) && final(q).pos == j,
                Outcome::Bad(e) => (r matches Err(pe) && err_view(pe) == e),
            }
        }),
{
    let ghost qv = qtokens(*old(q));
    let ghost p0 = old(q).pos as nat;
    proof {
        assert(qv.len() == q.items@.len());
    }
    if q.pos >= q.items.len() {
        return Err(ParseError::MissingTierName);
    }
    let tier_type = q.items[q.pos].clone();
    proof {
        assert(tier_type@ == qv[p0 as int]);
    }
    let is_interval = crate::textgrid::string_eq_str(&tier_type, "IntervalTier");
    let is_point = crate::textgrid::string_eq_str(&tier_type, "TextTier");
    if !is_interval && !is_point {
        proof {
            assert(!is_sentinel(qv[p0 as int]));
        }
        return Err(ParseError::UnknownTierType { found: tier_type });
    }
    proof {
        assert(is_sentinel(qv[p0 as int]));
    }
    q.pos = q.pos + 1;
    if q.pos >= q.items.len() {
        return Err(ParseError::MissingTierName);
    }
    let name = q.items[q.pos].clone();
    proof {
        assert(name@ == qv[p0 as int + 1]);
    }
    q.pos = q.pos + 1;
    let xmin = match pull_next_number(q) {
        Ok(d) => d,
        Err(e) => {
            return Err(e);
        },
    };
    let xmax = match pull_next_number(q) {
        Ok(d) => d,
        Err(e) => {
            return Err(e);
        },
    };
    let declared = match pull_next_integer(q) {
        Ok(v) => v,
        Err(e) => {
            return Err(e);
        },
    };
    let ghost p3 = q.pos as nat;
    let ghost nmv = name@;
    let ghost xminv = xmin;
    let ghost xmaxv = xmax;
    let mut w: Vec<Warning> = Vec::new();
    if is_interval {
        proof {
            reveal_strlit("IntervalTier");
            reveal_strlit("TextTier");
            assert(qv[p0 as int] == "IntervalTier"@);
            assert(spec_decode_tier(qv, p0) == (match spec_decode_intervals(qv, p3) {
                Outcome::Good(vs, e) => Outcome::<TierView>::Good(
                    TierView::IntervalTier(
                        IntervalTierView { name: nmv, xmin: xminv, xmax: xmaxv, intervals: vs },
                    ),
                    e,
                ),
                Outcome::Bad(b) => Outcome::<TierView>::Bad(b),
            }));
        }
        let mut children: Vec<Interval> = Vec::new();
        proof {
            assert(crate::interval::ivals(children@) =~= Seq::<IntervalView>::empty());
        }
        while !(q.pos == q.items.len()) && !front_is_sentinel(q)
            invariant
                q.wf(),
                qv == qtokens(*q),
                qv == qtokens(*old(q)),
                qv.len() == q.items@.len(),
                p0 == old(q).pos as nat,
                p3 <= q.pos,
                !warn ==> w@.len() == 0,
                spec_decode_tier(qv, p0) == (match spec_decode_intervals(qv, p3) {
                    Outcome::Good(vs, e) => Outcome::<TierView>::Good(
                        TierView::IntervalTier(
                            IntervalTierView {
                                name: nmv,
                                xmin: xminv,
                                xmax: xmaxv,
                                intervals: vs,
                            },
                        ),
                        e,
                    ),
                    Outcome::Bad(b) => Outcome::<TierView>::Bad(b),
                }),
                spec_decode_intervals(qv, p3) == (match spec_decode_intervals(
                    qv,
                    q.pos as nat,
                ) {
                    Outcome::Good(vs, e) => Outcome::Good(
                        crate::interval::ivals(children@) + vs,
                        e,
                    ),
                    Outcome::Bad(b) => Outcome::Bad(b),
                }),
            decreases q.items@.len() - q.pos,
        {
            let ghost cur = q.pos as nat;
            let ghost acc = crate::interval::ivals(children@);
            let iv = match parse_interval(q) {
                Ok(iv) => iv,
                Err(e) => {
                    proof {
                        match spec_decode_interval(qv, cur) {
                            Outcome::Bad(b) => {
                                assert(spec_decode_intervals(qv, cur) == Outcome::<
                                    Seq<IntervalView>,
                                >::Bad(b));
                            },
                            Outcome::Good(_, _) => {
                                assert(false);
                            },
                        }
                    }
                    return Err(e);
                },
            };
            children.push(iv);
            proof {
                lemma_decode_interval_advances(qv, cur);
                assert(crate::interval::ivals(children@) =~= acc + seq![iv@]);
                match spec_decode_intervals(qv, q.pos as nat) {
                    Outcome::Good(vs, e) => {
                        assert((acc + seq![iv@]) + vs =~= acc + (seq![iv@] + vs));
                    },
                    Outcome::Bad(_) => {},
                }
            }
        }
        proof {
            assert(spec_decode_intervals(qv, q.pos as nat) == Outcome::<
                Seq<IntervalView>,
            >::Good(Seq::empty(), q.pos as nat));
            assert(crate::interval::ivals(children@) + Seq::<IntervalView>::empty() =~= crate::interval::ivals(children@));
        }
        if warn && !counts_equal(declared, children.len()) {
            w.push(
                Warning::SizeMismatch {
                    tier: name.clone(),
                    declared,
                    found: children.len() as u64,
                },
            );
        }
        let tier = IntervalTier::new(name, xmin, xmax, children);
        return Ok((Tier::IntervalTier(tier), w));
    }
    let mut children: Vec<Point> = Vec::new();
    proof {
        reveal_strlit("IntervalTier");
        reveal_strlit("TextTier");
        assert(qv[p0 as int] != "IntervalTier"@);
        assert(crate::point::pvals(children@) =~= Seq::<PointView>::empty());
        assert(spec_decode_tier(qv, p0) == (match spec_decode_points(qv, p3) {
            Outcome::Good(vs, e) => Outcome::<TierView>::Good(
                TierView::PointTier(
                    PointTierView { name: nmv, xmin: xminv, xmax: xmaxv, points: vs },
                ),
                e,
            ),
            Outcome::Bad(b) => Outcome::<TierView>::Bad(b),
        }));
    }
    while !(q.pos == q.items.len()) && !front_is_sentinel(q)
        invariant
            q.wf(),
            qv == qtokens(*q),
            qv == qtokens(*old(q)),
            qv.len() == q.items@.len(),
            p0 == old(q).pos as nat,
            p3 <= q.pos,
            !warn ==> w@.len() == 0,
            spec_decode_tier(qv, p0) == (match spec_decode_points(qv, p3) {
                Outcome::Good(vs, e) => Outcome::<TierView>::Good(
                    TierView::PointTier(
                        PointTierView { name: nmv, xmin: xminv, xmax: xmaxv, points: vs },
                    ),
                    e,
                ),
                Outcome::Bad(b) => Outcome::<TierView>::Bad(b),
            }),
            spec_decode_points(qv, p3) == (match spec_decode_points(qv, q.pos as nat) {
                Outcome::Good(vs, e) => Outcome::Good(crate::point::pvals(children@) + vs, e),
                Outcome::Bad(b) => Outcome::Bad(b),
            }),
        decreases q.items@.len() - q.pos,
    {
        let ghost cur = q.pos as nat;
        let ghost acc = crate::point::pvals(children@);
        let pt = match parse_point(q) {
            Ok(pt) => pt,
            Err(e) => {
                proof {
                    match spec_decode_point(qv, cur) {
                        Outcome::Bad(b) => {
                            assert(spec_decode_points(qv, cur) == Outcome::<
                                Seq<PointView>,
                            >::Bad(b));
                        },
                        Outcome::Good(_, _) => {
                            assert(false);
                        },
                    }
                }
                return Err(e);
            },
        };
        children.push(pt);
        proof {
            lemma_decode_point_advances(qv, cur);
            assert(crate::point::pvals(children@) =~= acc + seq![pt@]);
            match spec_decode_points(qv, q.pos as nat) {
                Outcome::Good(vs, e) => {
                    assert((acc + seq![pt@]) + vs =~= acc + (seq![pt@] + vs));
                },
                Outcome::Bad(_) => {},
            }
        }
    }
    proof {
        assert(spec_decode_points(qv, q.pos as nat) == Outcome::<Seq<PointView>>::Good(
            Seq::empty(),
            q.pos as nat,
        ));
        assert(crate::point::pvals(children@) + Seq::<PointView>::empty() =~= crate::point::pvals(
            children@,
        ));
    }
    if warn && !counts_equal(declared, children.len()) {
        w.push(
            Warning::SizeMismatch { tier: name.clone(), declared, found: children.len() as u64 },
        );
    }
    let tier = PointTier::new(name, xmin, xmax, children);
    Ok((Tier::PointTier(tier), w))
}

/// Whether a declared count equals a decoded one.
fn counts_equal(declared: u64, found: usize) -> (r: bool)
    ensures
        r == (declared == found as u64),
{
    declared == found as u64
}

/// A tier's declared start, of either kind.
fn decoded_tier_xmin(t: &Tier) -> (r: Decimal)
    ensures
        r == crate::textgrid::tier_xmin(t@),
{
    match t {
        Tier::IntervalTier(it) => it.xmin,
        Tier::PointTier(pt) => pt.xmin,
    }
}

/// A tier's declared end, of either kind.
fn decoded_tier_xmax(t: &Tier) -> (r: Decimal)
    ensures
        r == crate::textgrid::tier_xmax(t@),
{
    match t {
        Tier::IntervalTier(it) => it.xmax,
        Tier::PointTier(pt) => pt.xmax,
    }
}

/// Decodes the declared tier count, then tier records until the queue is
/// exhausted.  The declared count never bounds the loop; when `warn` is
/// set, a mismatch with the decoded count, or a tier whose bounds lie
/// outside the document's, yields advisories.
pub fn parse_tiers(q: &mut TokenQueue, tg_xmin: Decimal, tg_xmax: Decimal, warn: bool) -> (r:
    Result<(Vec<Tier>, Vec<Warning>), ParseError>)
    requires
        old(q).wf(),
    ensures
        final(q).wf(),
        qtokens(*final(q)) == qtokens(*old(q)),
        ({
            let qv = qtokens(*old(q));
            match spec_pull_integer(qv, old(q).pos as nat) {
                Outcome::Bad(e) => (r matches Err(pe) && err_view(pe) == e),
                Outcome::Good(cnt, p) => match spec_decode_tiers(qv, p) {
                    Outcome::Bad(e) => (r matches Err(pe) && err_view(pe) == e),
                    Outcome::Good(ts, e2) => (r matches Ok(tw)
                        && crate::textgrid::tviews(tw.0@) == ts && (!warn ==> tw.1@.len() == 0))
                        && final(q).pos == e2,
                },
            }
        }),
{
    let ghost qv = qtokens(*old(q));
    let num_tiers = match pull_next_integer(q) {
        Ok(v) => v,
        Err(e) => {
            return Err(e);
        },
    };
    let ghost p = q.pos as nat;
    let mut tiers: Vec<Tier> = Vec::new();
    let mut w: Vec<Warning> = Vec::new();
    proof {
        assert(crate::textgrid::tviews(tiers@) =~= Seq::<TierView>::empty());
    }
    while q.pos < q.items.len()
        invariant
            q.wf(),
            qv == qtokens(*q),
            qv == qtokens(*old(q)),
            qv.len() == q.items@.len(),
            p <= q.pos,
            !warn ==> w@.len() == 0,
            spec_pull_integer(qv, old(q).pos as nat) matches Outcome::Good(cnt0, pp) && cnt0
                == num_tiers && pp == p,
            spec_decode_tiers(qv, p) == (match spec_decode_tiers(qv, q.pos as nat) {
                Outcome::Good(ts, e) => Outcome::<Seq<TierView>>::Good(
                    crate::textgrid::tviews(tiers@) + ts,
                    e,
                ),
                Outcome::Bad(b) => Outcome::<Seq<TierView>>::Bad(b),
            }),
        decreases q.items@.len() - q.pos,
    {
        let ghost cur = q.pos as nat;
        let ghost acc = crate::textgrid::tviews(tiers@);
        let (tier, mut tier_warnings) = match parse_one_tier(q, warn) {
            Ok(tw) => tw,
            Err(e) => {
                proof {
                    match spec_decode_tier(qv, cur) {
                        Outcome::Bad(b) => {
                            assert(spec_decode_tiers(qv, cur) == Outcome::<
                                Seq<TierView>,
                            >::Bad(b));
                        },
                        Outcome::Good(_, _) => {
                            assert(false);
                        },
                    }
                }
                return Err(e);
            },
        };
        if warn {
            let txmin = decoded_tier_xmin(&tier);
            if txmin.lt(&tg_xmin) {
                w.push(Warning::TierBeforeDocument { tier: tier.name().clone() });
            }
            let txmax = decoded_tier_xmax(&tier);
            if tg_xmax.lt(&txmax) {
                w.push(Warning::TierPastDocument { tier: tier.name().clone() });
            }
            w.append(&mut tier_warnings);
        }
        tiers.push(tier);
        proof {
            lemma_decode_tier_advances(qv, cur);
            assert(crate::textgrid::tviews(tiers@) =~= acc + seq![tier@]);
            match spec_decode_tiers(qv, q.pos as nat) {
                Outcome::Good(ts, e) => {
                    assert((acc + seq![tier@]) + ts =~= acc + (seq![tier@] + ts));
                },
                Outcome::Bad(_) => {},
            }
        }
    }
    proof {
        assert(spec_decode_tiers(qv, q.pos as nat) == Outcome::<Seq<TierView>>::Good(
            Seq::empty(),
            q.pos as nat,
        ));
        assert(crate::textgrid::tviews(tiers@) + Seq::<TierView>::empty()
            =~= crate::textgrid::tviews(tiers@));
    }
    if warn && !counts_equal(num_tiers, tiers.len()) {
        w.push(Warning::TierCountMismatch { declared: num_tiers, found: tiers.len() as u64 });
    }
    Ok((tiers, w))
}

/// The digits and dots of a token, in order.
fn keep_num_chars(t: &str) -> (r: String)
    ensures
        r@ == num_chars_of(t@),
{
    let n = t.unicode_len();
    let mut out: String = String::new();
    let mut i: usize = 0;
    proof {
        assert(t@.subrange(0, 0) =~= Seq::<char>::empty());
        assert(out@ =~= num_chars_of(t@.subrange(0, 0)));
    }
    while i < n
        invariant
            n == t@.len(),
            i <= n,
            out@ == num_chars_of(t@.subrange(0, i as int)),
        decreases n - i,
    {
        let c = t.get_char(i);
        proof {
            assert(t@.subrange(0, i + 1).drop_last() =~= t@.subrange(0, i as int));
            assert(t@.subrange(0, i + 1).last() == t@[i as int]);
        }
        let u = c as u32;
        if (48 <= u && u <= 57) || c == '.' {
            out.append(crate::decimal::digit_or_dot_str(c));
            proof {
                assert(out@ =~= num_chars_of(t@.subrange(0, i + 1)));
            }
        } else {
            proof {
                assert(out@ =~= num_chars_of(t@.subrange(0, i + 1)));
            }
        }
        i = i + 1;
    }
    proof {
        assert(t@.subrange(0, n as int) =~= t@);
    }
    out
}

/// Decodes a whole document from its raw lines: the lines are normalized
/// and reduced to value tokens, the header is checked, the two bounds are
/// read, and tiers are decoded until the tokens run out.  The display name
/// is supplied by the caller, never taken from the text.  Advisory
/// findings are returned beside the document when `warn` is set; they
/// never change the outcome.
pub fn parse_textgrid(lines: &Vec<String>, name: String, warn: bool) -> (r: Result<
    (TextGrid, Vec<Warning>),
    ParseError,
>)
    ensures
        ({
            let toks = crate::tokens::spec_process_lines(
                crate::tokens::spec_normalize_lines(crate::tokens::views(lines@)),
            );
            match spec_decode_document(toks, name@) {
                Outcome::Good(d, _) => (r matches Ok(tw) && tw.0@ == d && (!warn ==> tw.1@.len()
                    == 0)),
                Outcome::Bad(e) => (r matches Err(pe) && err_view(pe) == e),
            }
        }),
{
    let normalized = crate::tokens::normalize_lines(lines);
    let tokens = crate::tokens::process_lines(&normalized);
    let mut q = TokenQueue::new(tokens);
    let ghost qv = qtokens(q);
    proof {
        assert(qv =~= crate::tokens::spec_process_lines(
            crate::tokens::spec_normalize_lines(crate::tokens::views(lines@)),
        ));
    }
    match verify_start_of_textgrid(&mut q) {
        Ok(()) => {},
        Err(e) => {
            return Err(e);
        },
    }
    // the document's lower bound: the next token, reduced to its digits
    // and dots
    let tg_xmin: Decimal = if q.pos < q.items.len() {
        let t = q.items[q.pos].clone();
        proof {
            assert(t@ == qv[2]);
        }
        q.pos = q.pos + 1;
        match Decimal::from_text(keep_num_chars(t.as_str()).as_str()) {
            Some(d) => d,
            None => {
                return Err(ParseError::UnparsableDocumentXmin { token: t });
            },
        }
    } else {
        return Err(ParseError::MissingDocumentXmin);
    };
    let tg_xmax: Decimal = if q.pos < q.items.len() {
        let t = q.items[q.pos].clone();
        proof {
            assert(t@ == qv[3]);
        }
        q.pos = q.pos + 1;
        match Decimal::from_text(keep_num_chars(t.as_str()).as_str()) {
            Some(d) => d,
            None => {
                return Err(ParseError::UnparsableDocumentXmax { token: t });
            },
        }
    } else {
        return Err(ParseError::MissingDocumentXmax);
    };
    let (tiers, warnings) = match parse_tiers(&mut q, tg_xmin, tg_xmax, warn) {
        Ok(tw) => tw,
        Err(e) => {
            return Err(e);
        },
    };
    Ok((TextGrid::new(tg_xmin, tg_xmax, tiers, name), warnings))
}

} // verus!
