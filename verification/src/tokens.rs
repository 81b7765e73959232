//! Line normalization and the token filter.
//!
//! The text format is label-heavy, but only its quoted strings and numeric
//! literals carry information.  The tokenizer removes blank lines and
//! trailing comments, splits each line on whitespace while keeping quoted
//! spans whole, and keeps only the value tokens, yielding the flat token
//! queue the decoder consumes.

use crate::decimal::{digits_val_from, is_digit_char, lemma_digits_val_from_lower};
use vstd::prelude::*;

verus! {

/// The whitespace characters lines are split on.
pub open spec fn is_space_char(c: char) -> bool {
    c == ' ' || c == '\t' || c == '\r' || c == '\n'
}

/// A line of nothing but whitespace.
pub open spec fn spec_blank(s: Seq<char>) -> bool {
    forall|i: int| 0 <= i < s.len() ==> is_space_char(#[trigger] s[i])
}

/// Where a trailing comment begins: the first `!` seen after an odd number
/// of double quotes, scanning from `i` with `odd` quotes so far; the length
/// when there is none.
pub open spec fn comment_cut(s: Seq<char>, i: nat, odd: bool) -> nat
    decreases s.len() - i,
{
    if i >= s.len() {
        s.len() as nat
    } else if s[i as int] == '"' {
        comment_cut(s, i + 1, !odd)
    } else if s[i as int] == '!' && odd {
        i
    } else {
        comment_cut(s, i + 1, odd)
    }
}

/// A line with its trailing comment removed: truncated right before the
/// first `!` that follows an odd number of double quotes.
pub open spec fn spec_strip_comment(s: Seq<char>) -> Seq<char> {
    s.subrange(0, comment_cut(s, 0, false) as int)
}

/// Blank lines removed, then comments stripped, in order.
pub open spec fn spec_normalize_lines(lines: Seq<Seq<char>>) -> Seq<Seq<char>>
    decreases lines.len(),
{
    if lines.len() == 0 {
        Seq::empty()
    } else {
        let rest = spec_normalize_lines(lines.subrange(1, lines.len() as int));
        if spec_blank(lines[0]) {
            rest
        } else {
            seq![spec_strip_comment(lines[0])] + rest
        }
    }
}

/// The first double quote at or after `i`; the length when there is none.
pub open spec fn next_quote(s: Seq<char>, i: nat) -> nat
    decreases s.len() - i,
{
    if i >= s.len() {
        s.len() as nat
    } else if s[i as int] == '"' {
        i
    } else {
        next_quote(s, i + 1)
    }
}

/// The end of the whitespace-free run beginning at `i`.
pub open spec fn nonspace_end(s: Seq<char>, i: nat) -> nat
    decreases s.len() - i,
{
    if i >= s.len() || is_space_char(s[i as int]) {
        i
    } else {
        nonspace_end(s, i + 1)
    }
}

proof fn lemma_nonspace_end_bounds(s: Seq<char>, i: nat)
    requires
        i <= s.len(),
        i < s.len() ==> !is_space_char(s[i as int]),
    ensures
        i <= nonspace_end(s, i) <= s.len(),
        i < s.len() ==> i < nonspace_end(s, i),
    decreases s.len() - i,
{
    if i < s.len() && !is_space_char(s[i as int]) {
        if i + 1 < s.len() && !is_space_char(s[i as int + 1]) {
            lemma_nonspace_end_bounds(s, i + 1);
        } else {
            assert(nonspace_end(s, i + 1) == i + 1);
        }
    }
}

/// The tokens of one line from position `i` on: a whitespace-separated
/// word, except that a double-quoted span (when a closing quote exists) is
/// one token however many spaces it holds.
pub open spec fn split_line_from(s: Seq<char>, i: nat) -> Seq<Seq<char>>
    decreases s.len() - i,
{
    if i >= s.len() {
        Seq::empty()
    } else if is_space_char(s[i as int]) {
        split_line_from(s, i + 1)
    } else if s[i as int] == '"' && next_quote(s, i + 1) < s.len() {
        let j = next_quote(s, i + 1);
        if j + 1 > i {
            seq![s.subrange(i as int, j as int + 1)] + split_line_from(s, j + 1)
        } else {
            Seq::empty()
        }
    } else {
        let j = nonspace_end(s, i);
        if i < j <= s.len() {
            seq![s.subrange(i as int, j as int)] + split_line_from(s, j)
        } else {
            Seq::empty()
        }
    }
}

/// The tokens of one line.
pub open spec fn spec_split_line(s: Seq<char>) -> Seq<Seq<char>> {
    split_line_from(s, 0)
}

/// The number of dots in a token.
pub open spec fn dot_count(s: Seq<char>) -> nat
    decreases s.len(),
{
    if s.len() == 0 {
        0
    } else {
        dot_count(s.drop_last()) + if s.last() == '.' {
            1nat
        } else {
            0nat
        }
    }
}

/// A token shaped like a numeral: nothing but digits and at most one dot.
pub open spec fn numeric_shaped(t: Seq<char>) -> bool {
    (forall|i: int| 0 <= i < t.len() ==> is_digit_char(#[trigger] t[i]) || t[i] == '.')
        && dot_count(t) <= 1
}

/// What the token filter keeps of one split token: the inside of a fully
/// quoted token, a numeric-shaped token verbatim, nothing else.
pub open spec fn filter_token(t: Seq<char>) -> Option<Seq<char>> {
    if t.len() > 1 && t[0] == '"' && t.last() == '"' {
        Some(t.subrange(1, t.len() - 1))
    } else if numeric_shaped(t) {
        Some(t)
    } else {
        None
    }
}

/// The kept tokens of a run of split tokens.
pub open spec fn filter_tokens(ts: Seq<Seq<char>>) -> Seq<Seq<char>>
    decreases ts.len(),
{
    if ts.len() == 0 {
        Seq::empty()
    } else {
        let rest = filter_tokens(ts.subrange(1, ts.len() as int));
        match filter_token(ts[0]) {
            Some(t) => seq![t] + rest,
            None => rest,
        }
    }
}

/// The value tokens of a run of lines, in order.
pub open spec fn spec_process_lines(lines: Seq<Seq<char>>) -> Seq<Seq<char>>
    decreases lines.len(),
{
    if lines.len() == 0 {
        Seq::empty()
    } else {
        filter_tokens(spec_split_line(lines[0])) + spec_process_lines(
            lines.subrange(1, lines.len() as int),
        )
    }
}

/// The views of a sequence of lines or tokens.
pub open spec fn views(v: Seq<String>) -> Seq<Seq<char>> {
    v.map_values(|s: String| s@)
}

/// An executable whitespace test.
fn is_space(c: char) -> (r: bool)
    ensures
        r == is_space_char(c),
{
    c == ' ' || c == '\t' || c == '\r' || c == '\n'
}

/// Removes blank lines, then strips the trailing comment of each remaining
/// line.
pub fn normalize_lines(lines: &Vec<String>) -> (r: Vec<String>)
    ensures
        views(r@) == spec_normalize_lines(views(lines@)),
{
    let ghost ls = views(lines@);
    let n = lines.len();
    let mut out: Vec<String> = Vec::new();
    let mut i: usize = 0;
    proof {
        assert(ls.subrange(0, n as int) =~= ls);
        assert(views(out@) =~= Seq::<Seq<char>>::empty());
    }
    while i < n
        invariant
            n == lines@.len(),
            ls == views(lines@),
            i <= n,
            views(out@) + spec_normalize_lines(ls.subrange(i as int, n as int))
                == spec_normalize_lines(ls),
        decreases n - i,
    {
        let ghost rest = ls.subrange(i as int, n as int);
        let ghost out0 = views(out@);
        proof {
            assert(rest[0] == ls[i as int]);
            assert(ls[i as int] == lines@[i as int]@);
            assert(rest.subrange(1, rest.len() as int) =~= ls.subrange(i + 1, n as int));
        }
        let line: &String = &lines[i];
        if !line_is_blank(line) {
            let stripped = strip_comment(line);
            out.push(stripped);
            proof {
                assert(views(out@) =~= out0 + seq![spec_strip_comment(rest[0])]);
                assert(out0 + (seq![spec_strip_comment(rest[0])] + spec_normalize_lines(
                    ls.subrange(i + 1, n as int),
                )) =~= views(out@) + spec_normalize_lines(ls.subrange(i + 1, n as int)));
            }
        } else {
            proof {
                assert(views(out@) + spec_normalize_lines(ls.subrange(i + 1, n as int)) =~= out0
                    + spec_normalize_lines(rest));
            }
        }
        i = i + 1;
    }
    proof {
        assert(ls.subrange(n as int, n as int) =~= Seq::<Seq<char>>::empty());
        assert(views(out@) + Seq::<Seq<char>>::empty() =~= views(out@));
    }
    out
}

/// An executable blank-line test.
fn line_is_blank(line: &String) -> (r: bool)
    ensures
        r == spec_blank(line@),
{
    let s = line.as_str();
    let n = s.unicode_len();
    let mut i: usize = 0;
    while i < n
        invariant
            n == s@.len(),
            s@ == line@,
            i <= n,
            forall|k: int| 0 <= k < i ==> is_space_char(#[trigger] s@[k]),
        decreases n - i,
    {
        if !is_space(s.get_char(i)) {
            proof {
                assert(s@ == line@);
                assert(!is_space_char(line@[i as int]));
            }
            return false;
        }
        i = i + 1;
    }
    true
}

/// Truncates the line right before the first `!` that follows an odd
/// number of double quotes.
fn strip_comment(line: &String) -> (r: String)
    ensures
        r@ == spec_strip_comment(line@),
{
    let s = line.as_str();
    let n = s.unicode_len();
    let mut i: usize = 0;
    let mut odd: bool = false;
    while i < n
        invariant
            n == s@.len(),
            s@ == line@,
            i <= n,
            comment_cut(s@, 0, false) == comment_cut(s@, i as nat, odd),
        decreases n - i,
    {
        let c = s.get_char(i);
        if c == '"' {
            odd = !odd;
        } else if c == '!' && odd {
            proof {
                assert(comment_cut(s@, i as nat, odd) == i);
            }
            return s.substring_char(0, i).to_owned();
        }
        i = i + 1;
    }
    proof {
        assert(comment_cut(s@, n as nat, odd) == n);
        assert(s@.subrange(0, n as int) =~= s@);
    }
    s.substring_char(0, n).to_owned()
}

/// Splits one line into its tokens: whitespace-separated words, with each
/// double-quoted span kept whole.
pub fn split_line(line: &str) -> (r: Vec<String>)
    ensures
        views(r@) == spec_split_line(line@),
{
    let n = line.unicode_len();
    let mut out: Vec<String> = Vec::new();
    let mut i: usize = 0;
    proof {
        assert(views(out@) =~= Seq::<Seq<char>>::empty());
        assert(Seq::<Seq<char>>::empty() + split_line_from(line@, 0) =~= split_line_from(
            line@,
            0,
        ));
    }
    while i < n
        invariant
            n == line@.len(),
            i <= n,
            views(out@) + split_line_from(line@, i as nat) == spec_split_line(line@),
        decreases n - i,
    {
        let ghost out0 = views(out@);
        let c = line.get_char(i);
        if is_space(c) {
            i = i + 1;
        } else if c == '"' {
            // look for the closing quote
            let mut j: usize = i + 1;
            while j < n && line.get_char(j) != '"'
                invariant
                    n == line@.len(),
                    i + 1 <= j <= n,
                    forall|k: int| i + 1 <= k < j ==> line@[k] != '"',
                decreases n - j,
            {
                j = j + 1;
            }
            proof {
                lemma_next_quote_at(line@, i as nat + 1, j as nat);
            }
            if j < n {
                out.push(line.substring_char(i, j + 1).to_owned());
                proof {
                    assert(views(out@) =~= out0 + seq![line@.subrange(i as int, j + 1)]);
                    assert(out0 + (seq![line@.subrange(i as int, j + 1)] + split_line_from(
                        line@,
                        j as nat + 1,
                    )) =~= views(out@) + split_line_from(line@, j as nat + 1));
                }
                i = j + 1;
            } else {
                // no closing quote: the token is the whitespace-free run
                let e = nonspace_run(line, i);
                out.push(line.substring_char(i, e).to_owned());
                proof {
                    lemma_nonspace_end_bounds(line@, i as nat);
                    assert(views(out@) =~= out0 + seq![line@.subrange(i as int, e as int)]);
                    assert(out0 + (seq![line@.subrange(i as int, e as int)] + split_line_from(
                        line@,
                        e as nat,
                    )) =~= views(out@) + split_line_from(line@, e as nat));
                }
                i = e;
            }
        } else {
            let e = nonspace_run(line, i);
            out.push(line.substring_char(i, e).to_owned());
            proof {
                lemma_nonspace_end_bounds(line@, i as nat);
                assert(views(out@) =~= out0 + seq![line@.subrange(i as int, e as int)]);
                assert(out0 + (seq![line@.subrange(i as int, e as int)] + split_line_from(
                    line@,
                    e as nat,
                )) =~= views(out@) + split_line_from(line@, e as nat));
            }
            i = e;
        }
    }
    proof {
        assert(split_line_from(line@, n as nat) =~= Seq::<Seq<char>>::empty());
        assert(views(out@) + Seq::<Seq<char>>::empty() =~= views(out@));
    }
    out
}

/// The first quote from `j` on is at `j` itself when `line[j]` is one;
/// pins `next_quote` at the end of a quote-free scan.
pub proof fn lemma_next_quote_at(s: Seq<char>, i: nat, j: nat)
    requires
        i <= j <= s.len(),
        forall|k: int| i <= k < j ==> s[k] != '"',
    ensures
        next_quote(s, i) == if j < s.len() && s[j as int] == '"' {
            j
        } else {
            next_quote(s, j)
        },
    decreases j - i,
{
    if i < j {
        lemma_next_quote_at(s, i + 1, j);
    }
}

/// The end of the whitespace-free run starting at `i`.
fn nonspace_run(line: &str, i: usize) -> (e: usize)
    requires
        i < line@.len(),
        !is_space_char(line@[i as int]),
    ensures
        e == nonspace_end(line@, i as nat),
        i < e <= line@.len(),
{
    let n = line.unicode_len();
    let mut j: usize = i;
    while j < n && !is_space(line.get_char(j))
        invariant
            n == line@.len(),
            i <= j <= n,
            forall|k: int| i <= k < j ==> !is_space_char(#[trigger] line@[k]),
            nonspace_end(line@, i as nat) == nonspace_end(line@, j as nat),
        decreases n - j,
    {
        j = j + 1;
    }
    proof {
        assert(nonspace_end(line@, j as nat) == j);
        lemma_nonspace_end_bounds(line@, i as nat);
    }
    j
}

/// An executable digit test.
fn is_digit(c: char) -> (r: bool)
    ensures
        r == is_digit_char(c),
{
    let u = c as u32;
    48 <= u && u <= 57
}

/// What the token filter keeps of one token.
fn filter_one(t: &String) -> (r: Option<String>)
    ensures
        match r {
            Some(x) => filter_token(t@) == Some(x@),
            None => filter_token(t@) is None,
        },
{
    let st = t.as_str();
    let n = st.unicode_len();
    if n > 1 && st.get_char(0) == '"' && st.get_char(n - 1) == '"' {
        return Some(st.substring_char(1, n - 1).to_owned());
    }
    // numeric shape: digits and at most one dot, nothing else
    let mut i: usize = 0;
    let mut dots: usize = 0;
    while i < n
        invariant
            n == st@.len(),
            st@ == t@,
            i <= n,
            dots <= i,
            !(t@.len() > 1 && t@[0] == '"' && t@.last() == '"'),
            forall|k: int| 0 <= k < i ==> is_digit_char(#[trigger] st@[k]) || st@[k] == '.',
            dots == dot_count(st@.subrange(0, i as int)),
        decreases n - i,
    {
        let c = st.get_char(i);
        proof {
            assert(st@.subrange(0, i + 1).drop_last() =~= st@.subrange(0, i as int));
            assert(st@.subrange(0, i + 1).last() == st@[i as int]);
        }
        if c == '.' {
            dots = dots + 1;
        } else if !is_digit(c) {
            proof {
                assert(!(is_digit_char(t@[i as int]) || t@[i as int] == '.'));
                assert(!numeric_shaped(t@));
                assert(!(t@.len() > 1 && t@[0] == '"' && t@.last() == '"'));
            }
            return None;
        }
        i = i + 1;
    }
    proof {
        assert(st@.subrange(0, n as int) =~= st@);
    }
    if dots <= 1 {
        proof {
            assert(numeric_shaped(t@));
            assert(!(t@.len() > 1 && t@[0] == '"' && t@.last() == '"'));
        }
        Some(t.clone())
    } else {
        proof {
            assert(!numeric_shaped(t@));
            assert(!(t@.len() > 1 && t@[0] == '"' && t@.last() == '"'));
        }
        None
    }
}

/// Reduces lines to their value tokens: each line is split on whitespace
/// with quoted spans kept whole; fully quoted tokens are kept with the
/// quotes stripped, numeric-shaped tokens verbatim, and every other token
/// is discarded.
pub fn process_lines(lines: &Vec<String>) -> (r: Vec<String>)
    ensures
        views(r@) == spec_process_lines(views(lines@)),
{
    let ghost ls = views(lines@);
    let n = lines.len();
    let mut out: Vec<String> = Vec::new();
    let mut i: usize = 0;
    proof {
        assert(ls.subrange(0, n as int) =~= ls);
        assert(views(out@) =~= Seq::<Seq<char>>::empty());
        assert(Seq::<Seq<char>>::empty() + spec_process_lines(ls) =~= spec_process_lines(ls));
    }
    while i < n
        invariant
            n == lines@.len(),
            ls == views(lines@),
            i <= n,
            views(out@) + spec_process_lines(ls.subrange(i as int, n as int))
                == spec_process_lines(ls),
        decreases n - i,
    {
        let ghost rest = ls.subrange(i as int, n as int);
        let ghost out0 = views(out@);
        proof {
            assert(rest[0] == ls[i as int]);
            assert(ls[i as int] == lines@[i as int]@);
            assert(rest.subrange(1, rest.len() as int) =~= ls.subrange(i + 1, n as int));
        }
        let toks = split_line(lines[i].as_str());
        let ghost tv = views(toks@);
        let m = toks.len();
        let mut j: usize = 0;
        proof {
            assert(tv.subrange(0, m as int) =~= tv);
            assert(out0 + filter_tokens(tv.subrange(0, m as int)) =~= out0 + filter_tokens(tv));
        }
        while j < m
            invariant
                m == toks@.len(),
                tv == views(toks@),
                j <= m,
                views(out@) + filter_tokens(tv.subrange(j as int, m as int)) == out0
                    + filter_tokens(tv),
            decreases m - j,
        {
            let ghost trest = tv.subrange(j as int, m as int);
            let ghost outp = views(out@);
            proof {
                assert(trest[0] == tv[j as int]);
                assert(tv[j as int] == toks@[j as int]@);
                assert(trest.subrange(1, trest.len() as int) =~= tv.subrange(j + 1, m as int));
            }
            match filter_one(&toks[j]) {
                Some(x) => {
                    out.push(x);
                    proof {
                        assert(views(out@) =~= outp + seq![filter_token(trest[0]).unwrap()]);
                        assert(outp + (seq![filter_token(trest[0]).unwrap()] + filter_tokens(
                            tv.subrange(j + 1, m as int),
                        )) =~= views(out@) + filter_tokens(tv.subrange(j + 1, m as int)));
                    }
                },
                None => {
                    proof {
                        assert(views(out@) + filter_tokens(tv.subrange(j + 1, m as int)) =~= outp
                            + filter_tokens(trest));
                    }
                },
            }
            j = j + 1;
        }
        proof {
            assert(tv.subrange(m as int, m as int) =~= Seq::<Seq<char>>::empty());
            assert(filter_tokens(tv.subrange(m as int, m as int)) == Seq::<Seq<char>>::empty());
            assert(views(out@) + Seq::<Seq<char>>::empty() =~= views(out@));
            assert(views(out@) =~= out0 + filter_tokens(spec_split_line(rest[0])));
            assert(spec_process_lines(rest) == filter_tokens(spec_split_line(rest[0]))
                + spec_process_lines(ls.subrange(i + 1, n as int)));
            assert(views(out@) + spec_process_lines(ls.subrange(i + 1, n as int)) =~= out0
                + spec_process_lines(rest));
        }
        i = i + 1;
    }
    proof {
        assert(ls.subrange(n as int, n as int) =~= Seq::<Seq<char>>::empty());
        assert(views(out@) + Seq::<Seq<char>>::empty() =~= views(out@));
    }
    out
}

/// The ordered queue of value tokens the decoder consumes from the front.
#[derive(Debug)]
pub struct TokenQueue {
    pub items: Vec<String>,
    pub pos: usize,
}

impl TokenQueue {
    /// The queue's position is within bounds.
    pub open spec fn wf(self) -> bool {
        self.pos <= self.items@.len()
    }

    /// The tokens not yet consumed.
    pub open spec fn remaining(self) -> Seq<Seq<char>> {
        views(self.items@).subrange(self.pos as int, self.items@.len() as int)
    }

    pub fn new(items: Vec<String>) -> (r: TokenQueue)
        ensures
            r.wf(),
            r.pos == 0,
            r.items@ == items@,
            r.remaining() == views(items@),
    {
        let r = TokenQueue { items, pos: 0 };
        proof {
            assert(r.remaining() =~= views(r.items@));
        }
        r
    }

    /// How many tokens are left.
    pub fn len(&self) -> (r: usize)
        requires
            self.wf(),
        ensures
            r == self.remaining().len(),
    {
        self.items.len() - self.pos
    }

    /// Whether no token is left.
    pub fn is_empty(&self) -> (r: bool)
        requires
            self.wf(),
        ensures
            r == (self.remaining().len() == 0),
    {
        self.pos == self.items.len()
    }

    /// Takes the front token, if any.
    pub fn pop_front(&mut self) -> (r: Option<String>)
        requires
            old(self).wf(),
        ensures
            final(self).wf(),
            match r {
                Some(t) => old(self).remaining().len() > 0 && t@ == old(self).remaining()[0]
                    && final(self).remaining() == old(self).remaining().subrange(
                    1,
                    old(self).remaining().len() as int,
                ),
                None => old(self).remaining().len() == 0 && *final(self) == *old(self),
            },
    {
        if self.pos == self.items.len() {
            return None;
        }
        let t = self.items[self.pos].clone();
        self.pos = self.pos + 1;
        proof {
            assert(t@ == old(self).remaining()[0]);
            assert(self.remaining() =~= old(self).remaining().subrange(
                1,
                old(self).remaining().len() as int,
            ));
        }
        Some(t)
    }

    /// Whether the front token equals the given text.
    pub fn front_is(&self, t: &str) -> (r: bool)
        requires
            self.wf(),
        ensures
            r == (self.remaining().len() > 0 && self.remaining()[0] == t@),
    {
        if self.pos == self.items.len() {
            return false;
        }
        proof {
            assert(self.remaining()[0] == self.items@[self.pos as int]@);
        }
        crate::textgrid::string_eq_str(&self.items[self.pos], t)
    }
}

/// The first digit at or after `i`; the length when there is none.
pub open spec fn first_digit_at(t: Seq<char>, i: nat) -> nat
    decreases t.len() - i,
{
    if i >= t.len() {
        t.len() as nat
    } else if is_digit_char(t[i as int]) {
        i
    } else {
        first_digit_at(t, i + 1)
    }
}

/// The end of the digit run beginning at `i`.
pub open spec fn digit_run_end(t: Seq<char>, i: nat) -> nat
    decreases t.len() - i,
{
    if i >= t.len() || !is_digit_char(t[i as int]) {
        i
    } else {
        digit_run_end(t, i + 1)
    }
}

/// The first substring of a token matching the numeric pattern — a digit
/// run, optionally continued by a dot and another digit run — or `None`
/// when the token holds no digit.
pub open spec fn number_match(t: Seq<char>) -> Option<Seq<char>> {
    let a = first_digit_at(t, 0);
    if a >= t.len() {
        None
    } else {
        let b = digit_run_end(t, a);
        if b + 1 < t.len() && t[b as int] == '.' && is_digit_char(t[b as int + 1]) {
            Some(t.subrange(a as int, digit_run_end(t, b + 1) as int))
        } else {
            Some(t.subrange(a as int, b as int))
        }
    }
}

/// The first token at or after `i` holding a numeric match.
pub open spec fn find_match(q: Seq<Seq<char>>, i: nat) -> nat
    decreases q.len() - i,
{
    if i >= q.len() {
        q.len() as nat
    } else if number_match(q[i as int]) is Some {
        i
    } else {
        find_match(q, i + 1)
    }
}

/// The found position lies between the scan start and the length.
pub proof fn lemma_find_match_bounds(q: Seq<Seq<char>>, i: nat)
    requires
        i <= q.len(),
    ensures
        i <= find_match(q, i) <= q.len(),
        find_match(q, i) < q.len() ==> number_match(q[find_match(q, i) as int]) is Some,
    decreases q.len() - i,
{
    if i < q.len() && number_match(q[i as int]) is None {
        lemma_find_match_bounds(q, i + 1);
    }
}

/// The first numeric match inside a token, as text.
pub(crate) fn token_number_match(t: &str) -> (r: Option<String>)
    ensures
        match r {
            Some(m) => number_match(t@) == Some(m@),
            None => number_match(t@) is None,
        },
{
    let n = t.unicode_len();
    let mut a: usize = 0;
    while a < n && !is_digit(t.get_char(a))
        invariant
            n == t@.len(),
            a <= n,
            first_digit_at(t@, 0) == first_digit_at(t@, a as nat),
        decreases n - a,
    {
        a = a + 1;
    }
    proof {
        assert(first_digit_at(t@, a as nat) == if a < n {
            a as nat
        } else {
            n as nat
        });
    }
    if a >= n {
        return None;
    }
    let mut b: usize = a;
    while b < n && is_digit(t.get_char(b))
        invariant
            n == t@.len(),
            a <= b <= n,
            digit_run_end(t@, a as nat) == digit_run_end(t@, b as nat),
        decreases n - b,
    {
        b = b + 1;
    }
    proof {
        assert(digit_run_end(t@, b as nat) == b);
    }
    if b < n && t.get_char(b) == '.' && b + 1 < n && is_digit(t.get_char(b + 1)) {
        let mut e: usize = b + 1;
        while e < n && is_digit(t.get_char(e))
            invariant
                n == t@.len(),
                b + 1 <= e <= n,
                digit_run_end(t@, (b + 1) as nat) == digit_run_end(t@, e as nat),
            decreases n - e,
        {
            e = e + 1;
        }
        proof {
            assert(digit_run_end(t@, e as nat) == e);
        }
        Some(t.substring_char(a, e).to_owned())
    } else {
        Some(t.substring_char(a, b).to_owned())
    }
}

/// A token that is a plain integer the machine can hold: all digits, value
/// within `u64`.
pub open spec fn spec_token_u64(m: Seq<char>) -> Option<u64> {
    if m.len() > 0 && (forall|i: int| 0 <= i < m.len() ==> is_digit_char(#[trigger] m[i]))
        && digits_val_from(m, 0, 0) <= u64::MAX {
        Some(digits_val_from(m, 0, 0) as u64)
    } else {
        None
    }
}

/// Reads an all-digit token as an unsigned integer, `None` on any other
/// character or a value too large to hold.
pub(crate) fn read_u64(m: &str) -> (r: Option<u64>)
    ensures
        r == spec_token_u64(m@),
{
    let n = m.unicode_len();
    if n == 0 {
        return None;
    }
    let mut i: usize = 0;
    let mut v: u64 = 0;
    while i < n
        invariant
            n == m@.len(),
            i <= n,
            forall|k: int| 0 <= k < i ==> is_digit_char(#[trigger] m@[k]),
            digits_val_from(m@, 0, 0) == digits_val_from(m@, i as nat, v as nat),
        decreases n - i,
    {
        let c = m.get_char(i);
        if !is_digit(c) {
            proof {
                assert(!is_digit_char(m@[i as int]));
            }
            return None;
        }
        let d = (c as u32 - 48) as u64;
        if v > (u64::MAX - d) / 10 {
            proof {
                assert((v as nat) * 10 + crate::decimal::char_digit(m@[i as int]) > u64::MAX);
                assert(digits_val_from(m@, i as nat, v as nat) == digits_val_from(
                    m@,
                    i as nat + 1,
                    (v as nat) * 10 + crate::decimal::char_digit(m@[i as int]),
                ));
                lemma_digits_val_from_lower(
                    m@,
                    i as nat + 1,
                    (v as nat) * 10 + crate::decimal::char_digit(m@[i as int]),
                );
            }
            return None;
        }
        v = v * 10 + d;
        i = i + 1;
    }
    Some(v)
}

} // verus!
