use vstd::prelude::*;

use crate::arithmetic::{
    decimal_solution, lemma_assigned_sum_nonneg, lemma_decimal_iff_solves, lemma_digit_below_ten,
};

verus! {

/// Names `char::is_alphabetic`.
pub uninterp spec fn alphabetic(c: char) -> bool;

/// Names `char::is_uppercase`.
pub uninterp spec fn uppercase(c: char) -> bool;

/// Relies on `char::is_alphabetic`: a property of the character alone.
#[verifier::external_body]
fn is_alphabetic(c: char) -> (r: bool)
    ensures
        r == alphabetic(c),
{
    c.is_alphabetic()
}

/// Relies on `char::is_uppercase`: a property of the character alone.
#[verifier::external_body]
fn is_uppercase(c: char) -> (r: bool)
    ensures
        r == uppercase(c),
{
    c.is_uppercase()
}

/// A token counts as a word when it is non-empty and every character is an
/// uppercase letter.
pub open spec fn is_word(t: Seq<char>) -> bool {
    t.len() > 0 && forall|i: int| 0 <= i < t.len() ==> alphabetic(#[trigger] t[i]) && uppercase(t[i])
}

/// The pieces of `s` between single spaces, empty pieces included.
pub open spec fn pieces(s: Seq<char>) -> Seq<Seq<char>>
    decreases s.len(),
{
    if s.len() == 0 {
        seq![Seq::<char>::empty()]
    } else {
        let p = pieces(s.drop_last());
        if s.last() == ' ' {
            p.push(Seq::<char>::empty())
        } else {
            p.update(p.len() - 1, p.last().push(s.last()))
        }
    }
}

/// The tokens of `ts` that are words, in order.
pub open spec fn keep_words(ts: Seq<Seq<char>>) -> Seq<Seq<char>>
    decreases ts.len(),
{
    if ts.len() == 0 {
        seq![]
    } else {
        let w = keep_words(ts.drop_last());
        if is_word(ts.last()) {
            w.push(ts.last())
        } else {
            w
        }
    }
}

/// The words of a puzzle text: the addends, then the result.
pub open spec fn words_of(s: Seq<char>) -> Seq<Seq<char>> {
    keep_words(pieces(s))
}

/// The letters at position `k` counted from the right, one per word long
/// enough to reach it, in word order.
pub open spec fn column(ws: Seq<Seq<char>>, k: int) -> Seq<char>
    decreases ws.len(),
{
    if ws.len() == 0 {
        seq![]
    } else {
        let c = column(ws.drop_last(), k);
        let w = ws.last();
        if 0 <= k < w.len() {
            c.push(w[w.len() - 1 - k])
        } else {
            c
        }
    }
}

/// The length of the longest word: the number of columns.
pub open spec fn height(ws: Seq<Seq<char>>) -> int
    decreases ws.len(),
{
    if ws.len() == 0 {
        0
    } else {
        let h = height(ws.drop_last());
        if ws.last().len() > h {
            ws.last().len() as int
        } else {
            h
        }
    }
}

/// The digit given to `c`, or -1 where `c` has none.
pub open spec fn digit_of(sol: Seq<(char, u8)>, c: char) -> int
    decreases sol.len(),
{
    if sol.len() == 0 {
        -1
    } else if sol.last().0 == c {
        sol.last().1 as int
    } else {
        digit_of(sol.drop_last(), c)
    }
}

/// The sum of the digits of `cs`.
pub open spec fn digit_sum(sol: Seq<(char, u8)>, cs: Seq<char>) -> int
    decreases cs.len(),
{
    if cs.len() == 0 {
        0
    } else {
        digit_sum(sol, cs.drop_last()) + digit_of(sol, cs.last())
    }
}

/// Every letter of `cs` has a digit.
pub open spec fn all_assigned(sol: Seq<(char, u8)>, cs: Seq<char>) -> bool {
    forall|i: int| 0 <= i < cs.len() ==> digit_of(sol, #[trigger] cs[i]) >= 0
}

/// Evaluation of one column with an incoming carry: the letters before the
/// last one are summed with the carry; the last letter's digit must equal that
/// sum modulo ten, and the outgoing carry is the sum divided by ten.
pub open spec fn column_outcome(sol: Seq<(char, u8)>, col: Seq<char>, carry: int) -> Option<int> {
    if col.len() == 0 || !all_assigned(sol, col) {
        None
    } else {
        let actual = digit_sum(sol, col.drop_last()) + carry;
        if digit_of(sol, col.last()) == actual % 10 {
            Some(actual / 10)
        } else {
            None
        }
    }
}

/// Every column from `k` on evaluates, each with the carry of the one before,
/// and no carry is left after the last one.
pub open spec fn columns_hold(ws: Seq<Seq<char>>, sol: Seq<(char, u8)>, k: int, carry: int) -> bool
    decreases height(ws) - k,
{
    if k < 0 {
        false
    } else if k >= height(ws) {
        carry == 0
    } else {
        match column_outcome(sol, column(ws, k), carry) {
            Some(next) => columns_hold(ws, sol, k + 1, next),
            None => false,
        }
    }
}

/// `c` occurs in some word.
pub open spec fn occurs(ws: Seq<Seq<char>>, c: char) -> bool {
    exists|j: int, p: int| 0 <= j < ws.len() && 0 <= p < ws[j].len() && #[trigger] ws[j][p] == c
}

/// `c` leads some word.
pub open spec fn leads(ws: Seq<Seq<char>>, c: char) -> bool {
    exists|j: int| 0 <= j < ws.len() && ws[j].len() > 0 && #[trigger] ws[j][0] == c
}

/// No letter is listed twice and no digit is used twice.
pub open spec fn injective(sol: Seq<(char, u8)>) -> bool {
    forall|i: int, j: int|
        0 <= i < j < sol.len() ==> #[trigger] sol[i].0 != #[trigger] sol[j].0 && sol[i].1 != sol[j].1
}

/// `sol` solves the puzzle `ws`: the result word (the last one) reaches the
/// top column; `sol` gives each letter of the puzzle, and no other character,
/// its own decimal digit; no leading letter gets zero; and every column adds
/// up, carries included, with no carry left at the top.
pub open spec fn solves(ws: Seq<Seq<char>>, sol: Seq<(char, u8)>) -> bool {
    &&& ws.len() >= 1
    &&& ws.last().len() == height(ws)
    &&& injective(sol)
    &&& forall|i: int| 0 <= i < sol.len() ==> (#[trigger] sol[i]).1 < 10 && occurs(ws, sol[i].0)
    &&& forall|j: int, p: int|
        0 <= j < ws.len() && 0 <= p < ws[j].len() ==> digit_of(sol, #[trigger] ws[j][p]) >= 0
    &&& forall|j: int| 0 <= j < ws.len() && ws[j].len() > 0 ==> digit_of(sol, #[trigger] ws[j][0]) != 0
    &&& columns_hold(ws, sol, 0, 0)
}

/// The words as sequences.
pub open spec fn rows(v: Seq<Vec<char>>) -> Seq<Seq<char>> {
    Seq::new(v.len(), |i: int| v[i]@)
}

/// The letters of the puzzle, as a set.
pub open spec fn letter_set(ws: Seq<Seq<char>>) -> Set<char> {
    Set::new(|c: char| occurs(ws, c))
}


/// The digit given to `c`, if any.
fn lookup(sol: &Vec<(char, u8)>, c: char) -> (r: Option<u8>)
    ensures
        r is None <==> digit_of(sol@, c) < 0,
        r matches Some(d) ==> d as int == digit_of(sol@, c),
{
    let mut i: usize = sol.len();
    assert(sol@.take(i as int) =~= sol@);
    while i > 0
        invariant
            i <= sol.len(),
            digit_of(sol@, c) == digit_of(sol@.take(i as int), c),
        decreases i,
    {
        assert(sol@.take(i as int).drop_last() =~= sol@.take(i - 1));
        if sol[i - 1].0 == c {
            return Some(sol[i - 1].1);
        }
        i = i - 1;
    }
    None
}

/// Evaluates one column under the assignment `sol` with the incoming carry:
/// the outgoing carry where the column adds up, `None` where it does not or
/// where a letter of it has no digit yet. The sum is kept in a `u128` and is
/// never wrapped: a sum beyond it also gives `None`.
pub fn evaluate_column(sol: &Vec<(char, u8)>, column: &Vec<char>, carry: u128) -> (r: Option<u128>)
    ensures
        r matches Some(n) ==> column_outcome(sol@, column@, carry as int) == Some(n as int),
        r is None ==> column_outcome(sol@, column@, carry as int) is None || digit_sum(
            sol@,
            column@.drop_last(),
        ) + carry > u128::MAX,
{
    if column.len() == 0 {
        return None;
    }
    let last = column.len() - 1;
    let mut actual: u128 = carry;
    let mut i: usize = 0;
    while i < last
        invariant
            last == column@.len() - 1,
            i <= last,
            all_assigned(sol@, column@.take(i as int)),
            actual as int == digit_sum(sol@, column@.take(i as int)) + carry,
        decreases last - i,
    {
        let d = lookup(sol, column[i]);
        assert(column@.take(i + 1).drop_last() =~= column@.take(i as int));
        match d {
            Some(d) => {
                assert(all_assigned(sol@, column@.take(i + 1))) by {
                    assert forall|j: int| 0 <= j < i + 1 implies digit_of(
                        sol@,
                        #[trigger] column@.take(i + 1)[j],
                    ) >= 0 by {
                        if j < i {
                            assert(column@.take(i + 1)[j] == column@.take(i as int)[j]);
                        }
                    }
                }
                match actual.checked_add(d as u128) {
                    Some(a) => {
                        actual = a;
                    },
                    None => {
                        proof {
                            lemma_digit_sum_grows(sol@, column@.drop_last(), i + 1);
                            assert(column@.drop_last().take(i + 1) =~= column@.take(i + 1));
                        }
                        return None;
                    },
                }
            },
            None => {
                assert(!all_assigned(sol@, column@)) by {
                    assert(digit_of(sol@, column@[i as int]) < 0);
                }
                return None;
            },
        }
        i = i + 1;
    }
    assert(column@.take(last as int) =~= column@.drop_last());
    match lookup(sol, column[last]) {
        Some(expected) => {
            assert(all_assigned(sol@, column@)) by {
                assert forall|j: int| 0 <= j < column@.len() implies digit_of(
                    sol@,
                    #[trigger] column@[j],
                ) >= 0 by {
                    if j < last {
                        assert(column@.take(last as int)[j] == column@[j]);
                    }
                }
            }
            if expected as u128 == actual % 10 {
                Some(actual / 10)
            } else {
                None
            }
        },
        None => None,
    }
}

/// Over letters that all have digits, the sum of a prefix is at most the sum
/// of the whole.
proof fn lemma_digit_sum_grows(sol: Seq<(char, u8)>, cs: Seq<char>, n: int)
    requires
        0 <= n <= cs.len(),
        all_assigned(sol, cs.take(n)),
    ensures
        digit_sum(sol, cs.take(n)) <= digit_sum(sol, cs) || !all_assigned(sol, cs),
    decreases cs.len(),
{
    if n < cs.len() && all_assigned(sol, cs) {
        assert(cs.drop_last().take(n) =~= cs.take(n));
        assert(all_assigned(sol, cs.drop_last()));
        lemma_digit_sum_grows(sol, cs.drop_last(), n);
        assert(digit_of(sol, cs[cs.len() - 1]) >= 0);
    } else if n == cs.len() {
        assert(cs.take(n) =~= cs);
    }
}

/// The letters of column `k` of the puzzle.
fn column_letters(words: &Vec<Vec<char>>, k: usize) -> (r: Vec<char>)
    ensures
        r@ == column(rows(words@), k as int),
        r@.len() <= words@.len(),
{
    let mut r: Vec<char> = Vec::new();
    let mut j: usize = 0;
    while j < words.len()
        invariant
            j <= words@.len(),
            r@ == column(rows(words@).take(j as int), k as int),
            r@.len() <= j,
        decreases words.len() - j,
    {
        assert(rows(words@).take(j + 1).drop_last() =~= rows(words@).take(j as int));
        let w = &words[j];
        if k < w.len() {
            r.push(w[w.len() - 1 - k]);
        }
        j = j + 1;
    }
    assert(rows(words@).take(j as int) =~= rows(words@));
    r
}

/// The length of the longest word.
fn word_height(words: &Vec<Vec<char>>) -> (r: usize)
    ensures
        r as int == height(rows(words@)),
{
    let mut h: usize = 0;
    let mut j: usize = 0;
    while j < words.len()
        invariant
            j <= words@.len(),
            h as int == height(rows(words@).take(j as int)),
        decreases words.len() - j,
    {
        assert(rows(words@).take(j + 1).drop_last() =~= rows(words@).take(j as int));
        if words[j].len() > h {
            h = words[j].len();
        }
        j = j + 1;
    }
    assert(rows(words@).take(j as int) =~= rows(words@));
    h
}

/// Whether `c` is among `v`.
fn has_char(v: &Vec<char>, c: char) -> (r: bool)
    ensures
        r == v@.contains(c),
{
    let mut i: usize = 0;
    while i < v.len()
        invariant
            i <= v@.len(),
            forall|q: int| 0 <= q < i ==> v@[q] != c,
        decreases v.len() - i,
    {
        if v[i] == c {
            return true;
        }
        i = i + 1;
    }
    false
}

proof fn lemma_pieces_nonempty(s: Seq<char>)
    ensures
        pieces(s).len() >= 1,
    decreases s.len(),
{
    if s.len() > 0 {
        lemma_pieces_nonempty(s.drop_last());
    }
}

/// Whether the token is a word.
fn is_word_token(t: &Vec<char>) -> (r: bool)
    ensures
        r == is_word(t@),
{
    if t.len() == 0 {
        return false;
    }
    let mut i: usize = 0;
    while i < t.len()
        invariant
            i <= t@.len(),
            forall|q: int| 0 <= q < i ==> alphabetic(#[trigger] t@[q]) && uppercase(t@[q]),
        decreases t.len() - i,
    {
        let c = t[i];
        if !(is_alphabetic(c) && is_uppercase(c)) {
            return false;
        }
        i = i + 1;
    }
    true
}

/// The words of the puzzle text: its space-separated tokens that are made of
/// uppercase letters only.
pub fn parse_words(input: &str) -> (r: Vec<Vec<char>>)
    ensures
        rows(r@) == words_of(input@),
{
    let n = input.unicode_len();
    let mut words: Vec<Vec<char>> = Vec::new();
    let mut cur: Vec<char> = Vec::new();
    let mut i: usize = 0;
    proof {
        lemma_pieces_nonempty(input@.take(0));
        assert(input@.take(0) =~= Seq::<char>::empty());
        assert(pieces(input@.take(0)).drop_last() =~= Seq::<Seq<char>>::empty());
        assert(rows(words@) =~= Seq::<Seq<char>>::empty());
    }
    while i < n
        invariant
            n == input@.len(),
            i <= n,
            pieces(input@.take(i as int)).len() >= 1,
            pieces(input@.take(i as int)).last() == cur@,
            rows(words@) == keep_words(pieces(input@.take(i as int)).drop_last()),
        decreases n - i,
    {
        let c = input.get_char(i);
        let ghost p = pieces(input@.take(i as int));
        assert(input@.take(i + 1).drop_last() =~= input@.take(i as int));
        assert(input@.take(i + 1).last() == c);
        if c == ' ' {
            assert(pieces(input@.take(i + 1)) == p.push(Seq::<char>::empty()));
            assert(p.push(Seq::<char>::empty()).drop_last() =~= p);
            let is_w = is_word_token(&cur);
            let ghost before = words@;
            if is_w {
                words.push(cur);
                assert(rows(words@) =~= rows(before).push(p.last()));
            }
            cur = Vec::new();
            assert(cur@ =~= Seq::<char>::empty());
        } else {
            let ghost q = p.update(p.len() - 1, p.last().push(c));
            assert(pieces(input@.take(i + 1)) == q);
            assert(q.drop_last() =~= p.drop_last());
            cur.push(c);
        }
        i = i + 1;
    }
    assert(input@.take(n as int) =~= input@);
    let ghost p = pieces(input@);
    let ghost before = words@;
    if is_word_token(&cur) {
        words.push(cur);
        assert(rows(words@) =~= rows(before).push(p.last()));
    }
    words
}

/// Whether `d` is already given to some letter.
fn digit_used(sol: &Vec<(char, u8)>, d: u8) -> (r: bool)
    ensures
        r == exists|i: int| 0 <= i < sol@.len() && (#[trigger] sol@[i]).1 == d,
{
    let mut i: usize = 0;
    while i < sol.len()
        invariant
            i <= sol@.len(),
            forall|q: int| 0 <= q < i ==> (#[trigger] sol@[q]).1 != d,
        decreases sol.len() - i,
    {
        if sol[i].1 == d {
            return true;
        }
        i = i + 1;
    }
    false
}

/// A copy of an assignment.
fn copy_assignment(v: &Vec<(char, u8)>) -> (r: Vec<(char, u8)>)
    ensures
        r@ == v@,
{
    let mut r: Vec<(char, u8)> = Vec::new();
    let mut i: usize = 0;
    while i < v.len()
        invariant
            i <= v@.len(),
            r@ == v@.take(i as int),
        decreases v.len() - i,
    {
        r.push(v[i]);
        assert(r@ =~= v@.take(i + 1));
        i = i + 1;
    }
    assert(v@.take(i as int) =~= v@);
    r
}

/// Every digit that `a` gives, `b` gives too.
pub open spec fn extends(a: Seq<(char, u8)>, b: Seq<(char, u8)>) -> bool {
    forall|c: char|
        #![trigger digit_of(a, c)]
        #![trigger digit_of(b, c)]
        digit_of(a, c) >= 0 ==> digit_of(b, c) == digit_of(a, c)
}

/// A partial assignment that the search may hold: letters of the puzzle, each
/// with its own decimal digit, no leading letter with zero.
pub open spec fn partial_ok(ws: Seq<Seq<char>>, sol: Seq<(char, u8)>) -> bool {
    &&& injective(sol)
    &&& forall|i: int| 0 <= i < sol.len() ==> (#[trigger] sol[i]).1 < 10 && occurs(ws, sol[i].0)
    &&& forall|c: char| leads(ws, c) && #[trigger] digit_of(sol, c) >= 0 ==> digit_of(sol, c) != 0
}

/// The digit `d` is given to some letter.
pub open spec fn used(sol: Seq<(char, u8)>, d: u8) -> bool {
    exists|i: int| 0 <= i < sol.len() && (#[trigger] sol[i]).1 == d
}

/// The columns and the leading letters that the search reads agree with the
/// words.
pub open spec fn search_ready(ws: Seq<Seq<char>>, first_letters: Seq<char>, matrix: Seq<Vec<char>>) -> bool {
    &&& matrix.len() == height(ws)
    &&& forall|k: int| 0 <= k < matrix.len() ==> (#[trigger] matrix[k])@ == column(ws, k)
    &&& forall|c: char| #[trigger] first_letters.contains(c) <==> leads(ws, c)
    &&& ws.len() <= usize::MAX
}

/// Every letter that `b` gives a digit and `a` does not lies in a column from
/// `k` on.
pub open spec fn assigned_within(ws: Seq<Seq<char>>, a: Seq<(char, u8)>, b: Seq<(char, u8)>, k: int) -> bool {
    forall|c: char|
        #[trigger] digit_of(b, c) >= 0 ==> digit_of(a, c) >= 0 || exists|q: int|
            k <= q < height(ws) && #[trigger] column(ws, q).contains(c)
}

/// What a successful search from column `k` leaves: a partial assignment under
/// which the columns from `k` on have all their digits and add up.
pub open spec fn found(ws: Seq<Seq<char>>, sol: Seq<(char, u8)>, k: int, carry: int) -> bool {
    &&& partial_ok(ws, sol)
    &&& columns_hold(ws, sol, k, carry)
    &&& forall|q: int| k <= q < height(ws) ==> all_assigned(sol, #[trigger] column(ws, q))
}

/// `t` extends `sol` to an assignment the search could finish with from
/// column `k`: the columns from `k` on have all their digits under it and add
/// up from the carry `carry`, which is at most the number of words.
pub open spec fn on_track(ws: Seq<Seq<char>>, t: Seq<(char, u8)>, sol: Seq<(char, u8)>, k: int, carry: int) -> bool {
    &&& found(ws, t, k, carry)
    &&& extends(sol, t)
    &&& 0 <= carry <= ws.len()
}

proof fn lemma_unassigned_absent(sol: Seq<(char, u8)>, c: char)
    requires
        digit_of(sol, c) < 0,
    ensures
        forall|i: int| 0 <= i < sol.len() ==> (#[trigger] sol[i]).0 != c,
    decreases sol.len(),
{
    if sol.len() > 0 {
        lemma_unassigned_absent(sol.drop_last(), c);
        assert forall|i: int| 0 <= i < sol.len() implies (#[trigger] sol[i]).0 != c by {
            if i < sol.len() - 1 {
                assert(sol[i] == sol.drop_last()[i]);
            }
        }
    }
}

proof fn lemma_digit_index(sol: Seq<(char, u8)>, c: char) -> (i: int)
    requires
        digit_of(sol, c) >= 0,
    ensures
        0 <= i < sol.len(),
        sol[i].0 == c,
        sol[i].1 as int == digit_of(sol, c),
    decreases sol.len(),
{
    if sol.last().0 == c {
        sol.len() - 1
    } else {
        let i = lemma_digit_index(sol.drop_last(), c);
        assert(sol[i] == sol.drop_last()[i]);
        i
    }
}

proof fn lemma_index_digit(sol: Seq<(char, u8)>, i: int)
    requires
        injective(sol),
        0 <= i < sol.len(),
    ensures
        digit_of(sol, sol[i].0) == sol[i].1 as int,
    decreases sol.len(),
{
    if i < sol.len() - 1 {
        assert(sol[i] == sol.drop_last()[i]);
        assert(injective(sol.drop_last())) by {
            assert forall|a: int, b: int| 0 <= a < b < sol.drop_last().len() implies #[trigger] sol.drop_last()[a].0 != #[trigger] sol.drop_last()[b].0 && sol.drop_last()[a].1 != sol.drop_last()[b].1 by {
                assert(sol.drop_last()[a] == sol[a] && sol.drop_last()[b] == sol[b]);
            }
        }
        lemma_index_digit(sol.drop_last(), i);
        assert(sol[i].0 != sol[sol.len() - 1].0);
    }
}

proof fn lemma_same_digit_same_letter(t: Seq<(char, u8)>, a: char, b: char)
    requires
        injective(t),
        digit_of(t, a) >= 0,
        digit_of(t, a) == digit_of(t, b),
    ensures
        a == b,
{
    let i = lemma_digit_index(t, a);
    let j = lemma_digit_index(t, b);
    if i != j {
        if i < j {
            assert(t[i].1 != t[j].1);
        } else {
            assert(t[j].1 != t[i].1);
        }
    }
}

proof fn lemma_push_digit(sol: Seq<(char, u8)>, l: char, d: u8, c: char)
    ensures
        digit_of(sol.push((l, d)), c) == if c == l {
            d as int
        } else {
            digit_of(sol, c)
        },
{
    assert(sol.push((l, d)).drop_last() =~= sol);
}

proof fn lemma_sum_transfer(a: Seq<(char, u8)>, b: Seq<(char, u8)>, cs: Seq<char>)
    requires
        all_assigned(a, cs),
        extends(a, b),
    ensures
        digit_sum(a, cs) == digit_sum(b, cs),
        all_assigned(b, cs),
    decreases cs.len(),
{
    if cs.len() > 0 {
        assert(all_assigned(a, cs.drop_last())) by {
            assert forall|i: int| 0 <= i < cs.drop_last().len() implies digit_of(a, #[trigger] cs.drop_last()[i]) >= 0 by {
                assert(cs.drop_last()[i] == cs[i]);
            }
        }
        lemma_sum_transfer(a, b, cs.drop_last());
        assert(digit_of(a, cs[cs.len() - 1]) >= 0);
    }
}

proof fn lemma_outcome_transfer(a: Seq<(char, u8)>, b: Seq<(char, u8)>, col: Seq<char>, carry: int)
    requires
        all_assigned(a, col),
        extends(a, b),
    ensures
        column_outcome(a, col, carry) == column_outcome(b, col, carry),
        all_assigned(b, col),
{
    lemma_sum_transfer(a, b, col);
    if col.len() > 0 {
        assert(all_assigned(a, col.drop_last())) by {
            assert forall|i: int| 0 <= i < col.drop_last().len() implies digit_of(a, #[trigger] col.drop_last()[i]) >= 0 by {
                assert(col.drop_last()[i] == col[i]);
            }
        }
        lemma_sum_transfer(a, b, col.drop_last());
        assert(digit_of(a, col[col.len() - 1]) >= 0);
    }
}

pub(crate) proof fn lemma_column_occurs(ws: Seq<Seq<char>>, k: int, i: int)
    requires
        0 <= i < column(ws, k).len(),
    ensures
        occurs(ws, column(ws, k)[i]),
        column(ws, k).len() <= ws.len(),
    decreases ws.len(),
{
    let c = column(ws.drop_last(), k);
    let w = ws.last();
    lemma_column_len(ws.drop_last(), k);
    if i < c.len() {
        lemma_column_occurs(ws.drop_last(), k, i);
        let (a, b) = choose|a: int, b: int| 0 <= a < ws.drop_last().len() && 0 <= b < ws.drop_last()[a].len() && #[trigger] ws.drop_last()[a][b] == c[i];
        assert(ws[a][b] == c[i]);
    } else {
        assert(ws[ws.len() - 1][w.len() - 1 - k] == column(ws, k)[i]);
    }
}

proof fn lemma_column_len(ws: Seq<Seq<char>>, k: int)
    ensures
        column(ws, k).len() <= ws.len(),
    decreases ws.len(),
{
    if ws.len() > 0 {
        lemma_column_len(ws.drop_last(), k);
    }
}

proof fn lemma_letter_in_column(ws: Seq<Seq<char>>, j: int, p: int)
    requires
        0 <= j < ws.len(),
        0 <= p < ws[j].len(),
    ensures
        column(ws, ws[j].len() - 1 - p).contains(ws[j][p]),
    decreases ws.len(),
{
    let k = ws[j].len() - 1 - p;
    if j < ws.len() - 1 {
        assert(ws.drop_last()[j] == ws[j]);
        lemma_letter_in_column(ws.drop_last(), j, p);
        let c = column(ws.drop_last(), k);
        let q = choose|q: int| 0 <= q < c.len() && c[q] == ws[j][p];
        assert(column(ws, k)[q] == ws[j][p]);
    } else {
        let col = column(ws, k);
        assert(col[col.len() - 1] == ws[j][p]);
    }
}

proof fn lemma_height_covers(ws: Seq<Seq<char>>, j: int)
    requires
        0 <= j < ws.len(),
    ensures
        ws[j].len() <= height(ws),
    decreases ws.len(),
{
    if j < ws.len() - 1 {
        assert(ws.drop_last()[j] == ws[j]);
        lemma_height_covers(ws.drop_last(), j);
    }
}

proof fn lemma_sum_limit(ws: Seq<Seq<char>>, t: Seq<(char, u8)>, cs: Seq<char>)
    requires
        partial_ok(ws, t),
    ensures
        digit_sum(t, cs) <= 9 * cs.len(),
    decreases cs.len(),
{
    if cs.len() > 0 {
        lemma_sum_limit(ws, t, cs.drop_last());
        lemma_digit_below_ten(t, cs.last());
    }
}

/// Column search: solves the columns from `k` on, starting from the carry
/// that column `k` receives. The letters of column `k` that have no digit yet
/// are tried against the digits that are still free. On failure the
/// assignment is as it was; the search fails only where no solution agrees
/// with the assignment it was given.
fn solve_column(
    sol: &mut Vec<(char, u8)>,
    first_letters: &Vec<char>,
    matrix: &Vec<Vec<char>>,
    k: usize,
    carry: u128,
    Ghost(ws): Ghost<Seq<Seq<char>>>,
    Ghost(t): Ghost<Seq<(char, u8)>>,
) -> (r: bool)
    requires
        search_ready(ws, first_letters@, matrix@),
        k <= matrix@.len(),
        partial_ok(ws, old(sol)@),
    ensures
        k == matrix@.len() ==> r == (carry == 0) && final(sol)@ == old(sol)@,
        r ==> found(ws, final(sol)@, k as int, carry as int) && extends(old(sol)@, final(sol)@),
        r ==> assigned_within(ws, old(sol)@, final(sol)@, k as int),
        !r ==> final(sol)@ == old(sol)@,
        on_track(ws, t, old(sol)@, k as int, carry as int) ==> r,
    decreases matrix@.len() - k, 1int, 0int,
{
    broadcast use vstd::seq_lib::group_seq_properties;

    if k == matrix.len() {
        return carry == 0;
    }
    let col = &matrix[k];
    assert(col@ == column(ws, k as int));
    let mut letters: Vec<char> = Vec::new();
    let mut i: usize = 0;
    while i < col.len()
        invariant
            i <= col@.len(),
            letters@.no_duplicates(),
            forall|c: char| #[trigger] letters@.contains(c) <==> (col@.take(i as int).contains(c) && digit_of(sol@, c) < 0),
        decreases col.len() - i,
    {
        let c = col[i];
        assert(col@.take(i + 1) =~= col@.take(i as int).push(c));
        let ghost before = letters@;
        if lookup(sol, c).is_none() && !has_char(&letters, c) {
            letters.push(c);
            assert forall|x: char| #[trigger] letters@.contains(x) <==> (before.contains(x) || x == c) by {
                assert(letters@ == before.push(c));
                vstd::seq_lib::lemma_seq_contains_after_push(before, c, x);
            }
        }
        assert forall|x: char| #[trigger] letters@.contains(x) <==> (col@.take(i + 1).contains(x) && digit_of(sol@, x) < 0) by {
            vstd::seq_lib::lemma_seq_contains_after_push(col@.take(i as int), c, x);
        }
        i = i + 1;
    }
    assert(col@.take(i as int) =~= col@);
    let mut numbers: Vec<u8> = Vec::new();
    let mut d: u8 = 0;
    while d < 10
        invariant
            d <= 10,
            forall|x: u8| #[trigger] numbers@.contains(x) <==> (x < d && !used(sol@, x)),
        decreases 10 - d,
    {
        let ghost before = numbers@;
        if !digit_used(sol, d) {
            numbers.push(d);
        }
        assert forall|x: u8| #[trigger] numbers@.contains(x) <==> (x < d + 1 && !used(sol@, x)) by {
            vstd::seq_lib::lemma_seq_contains_after_push(before, d, x);
        }
        d = d + 1;
    }
    assert(letters@.subrange(0, letters@.len() as int) =~= letters@);
    solve_row(sol, first_letters, matrix, k, carry, &letters, 0, &numbers, Ghost(ws), Ghost(t))
}

/// Letter search within column `k`: gives `letters[li]` and the letters after
/// it each a digit of `numbers`, none twice and no leading letter zero, then
/// evaluates the column and goes on with the next one. The first success
/// ends the search; on failure the assignment is as it was.
fn solve_row(
    sol: &mut Vec<(char, u8)>,
    first_letters: &Vec<char>,
    matrix: &Vec<Vec<char>>,
    k: usize,
    carry: u128,
    letters: &Vec<char>,
    li: usize,
    numbers: &Vec<u8>,
    Ghost(ws): Ghost<Seq<Seq<char>>>,
    Ghost(t): Ghost<Seq<(char, u8)>>,
) -> (r: bool)
    requires
        search_ready(ws, first_letters@, matrix@),
        k < matrix@.len(),
        li <= letters@.len(),
        partial_ok(ws, old(sol)@),
        letters@.no_duplicates(),
        forall|c: char| #[trigger] letters@.subrange(li as int, letters@.len() as int).contains(c) <==> (column(ws, k as int).contains(c) && digit_of(old(sol)@, c) < 0),
        forall|x: u8| #[trigger] numbers@.contains(x) <==> (x < 10 && !used(old(sol)@, x)),
    ensures
        li == letters@.len() && column_outcome(old(sol)@, column(ws, k as int), carry as int) is None ==> !r,
        r ==> found(ws, final(sol)@, k as int, carry as int) && extends(old(sol)@, final(sol)@),
        r ==> assigned_within(ws, old(sol)@, final(sol)@, k as int),
        !r ==> final(sol)@ == old(sol)@,
        on_track(ws, t, old(sol)@, k as int, carry as int) ==> r,
    decreases matrix@.len() - k, 0int, letters@.len() - li,
{
    broadcast use vstd::seq_lib::group_seq_properties;

    let n = matrix.len();
    let nl = letters.len();
    let ghost col = column(ws, k as int);
    assert(matrix@[k as int]@ == col);
    if li == nl {
        assert(all_assigned(sol@, col)) by {
            assert forall|q: int| 0 <= q < col.len() implies digit_of(sol@, #[trigger] col[q]) >= 0 by {
                assert(col.contains(col[q]));
                if digit_of(sol@, col[q]) < 0 {
                    assert(letters@.subrange(li as int, letters@.len() as int).contains(col[q]));
                }
            }
        }
        proof {
            if on_track(ws, t, sol@, k as int, carry as int) {
                lemma_outcome_transfer(sol@, t, col, carry as int);
                lemma_column_len(ws, k as int);
                lemma_sum_limit(ws, t, col.drop_last());
                assert(all_assigned(sol@, col.drop_last())) by {
                    assert forall|q: int| 0 <= q < col.drop_last().len() implies digit_of(sol@, #[trigger] col.drop_last()[q]) >= 0 by {
                        assert(col.drop_last()[q] == col[q]);
                    }
                }
                lemma_sum_transfer(sol@, t, col.drop_last());
                lemma_assigned_sum_nonneg(t, col.drop_last());
                let next = (digit_sum(t, col.drop_last()) + carry) / 10;
                assert(column_outcome(t, col, carry as int) == Some(next));
                assert(0 <= next <= ws.len());
                assert(on_track(ws, t, sol@, k + 1, next));
            }
        }
        match evaluate_column(sol, &matrix[k], carry) {
            Some(next) => {
                let ghost before = sol@;
                let r = solve_column(sol, first_letters, matrix, k + 1, next, Ghost(ws), Ghost(t));
                proof {
                    if r {
                        lemma_outcome_transfer(before, sol@, col, carry as int);
                        assert forall|c: char| #[trigger] digit_of(sol@, c) >= 0 implies digit_of(before, c) >= 0 || exists|q: int|
                            k <= q < height(ws) && #[trigger] column(ws, q).contains(c) by {
                            if digit_of(before, c) < 0 {
                                let q = choose|q: int| k + 1 <= q < height(ws) && #[trigger] column(ws, q).contains(c);
                                assert(k <= q < height(ws) && column(ws, q).contains(c));
                            }
                        }
                    }
                }
                r
            },
            None => false,
        }
    } else {
        let letter = letters[li];
        assert(letters@.subrange(li as int, letters@.len() as int)[0] == letter);
        assert(letters@.subrange(li as int, letters@.len() as int).contains(letter));
        assert(col.contains(letter) && digit_of(sol@, letter) < 0);
        let leading = has_char(first_letters, letter);
        let ghost dt = digit_of(t, letter);
        proof {
            lemma_unassigned_absent(sol@, letter);
            let q = choose|q: int| 0 <= q < col.len() && col[q] == letter;
            lemma_column_occurs(ws, k as int, q);
        }
        let mut i: usize = 0;
        while i < numbers.len()
            invariant
                search_ready(ws, first_letters@, matrix@),
                k < matrix@.len(),
                n == matrix@.len(),
                li < letters@.len(),
                nl == letters@.len(),
                letter == letters@[li as int],
                col == column(ws, k as int),
                col.contains(letter),
                occurs(ws, letter),
                digit_of(sol@, letter) < 0,
                forall|q: int| 0 <= q < sol@.len() ==> (#[trigger] sol@[q]).0 != letter,
                leading == leads(ws, letter),
                dt == digit_of(t, letter),
                i <= numbers@.len(),
                sol@ == old(sol)@,
                partial_ok(ws, sol@),
                letters@.no_duplicates(),
                forall|c: char| #[trigger] letters@.subrange(li as int, letters@.len() as int).contains(c) <==> (col.contains(c) && digit_of(sol@, c) < 0),
                forall|x: u8| #[trigger] numbers@.contains(x) <==> (x < 10 && !used(sol@, x)),
                on_track(ws, t, sol@, k as int, carry as int) ==> forall|q: int| 0 <= q < i ==> numbers@[q] as int != dt,
            decreases numbers.len() - i,
        {
            let number = numbers[i];
            assert(numbers@.contains(number));
            if !(leading && number == 0) {
                let mut others: Vec<u8> = Vec::new();
                let mut q: usize = 0;
                while q < numbers.len()
                    invariant
                        q <= numbers@.len(),
                        forall|x: u8| #[trigger] others@.contains(x) <==> (numbers@.take(q as int).contains(x) && x != number),
                    decreases numbers.len() - q,
                {
                    assert(numbers@.take(q + 1) =~= numbers@.take(q as int).push(numbers@[q as int]));
                    let ghost before = others@;
                    if numbers[q] != number {
                        others.push(numbers[q]);
                    }
                    assert forall|x: u8| #[trigger] others@.contains(x) <==> (numbers@.take(q + 1).contains(x) && x != number) by {
                        vstd::seq_lib::lemma_seq_contains_after_push(before, numbers@[q as int], x);
                        vstd::seq_lib::lemma_seq_contains_after_push(numbers@.take(q as int), numbers@[q as int], x);
                    }
                    q = q + 1;
                }
                assert(numbers@.take(q as int) =~= numbers@);
                let ghost before = sol@;
                sol.push((letter, number));
                let ghost s2 = sol@;
                assert(s2 == before.push((letter, number)));
                proof {
                    assert forall|c: char| #![trigger digit_of(s2, c)] #![trigger digit_of(before, c)] digit_of(s2, c) == if c == letter { number as int } else { digit_of(before, c) } by {
                        lemma_push_digit(before, letter, number, c);
                    }
                    assert(injective(s2)) by {
                        assert forall|a: int, b: int| 0 <= a < b < s2.len() implies #[trigger] s2[a].0 != #[trigger] s2[b].0 && s2[a].1 != s2[b].1 by {
                            if b == s2.len() - 1 {
                                assert(s2[a] == before[a]);
                                assert(before[a].0 != letter);
                                if before[a].1 == number {
                                    assert(used(before, number));
                                }
                            } else {
                                assert(s2[a] == before[a] && s2[b] == before[b]);
                            }
                        }
                    }
                    assert forall|a: int| 0 <= a < s2.len() implies (#[trigger] s2[a]).1 < 10 && occurs(ws, s2[a].0) by {
                        if a < s2.len() - 1 {
                            assert(s2[a] == before[a]);
                        }
                    }
                    assert(partial_ok(ws, s2));
                    assert(extends(before, s2));
                    assert forall|c: char| #[trigger] letters@.subrange(li + 1, letters@.len() as int).contains(c) <==> (col.contains(c) && digit_of(s2, c) < 0) by {
                        let whole = letters@.subrange(li as int, letters@.len() as int);
                        let rest = letters@.subrange(li + 1, letters@.len() as int);
                        if rest.contains(c) {
                            let q = choose|q: int| 0 <= q < rest.len() && rest[q] == c;
                            assert(whole[q + 1] == c);
                            assert(whole.contains(c));
                            assert(letters@[li + 1 + q] == c);
                            assert(c != letter);
                        }
                        if col.contains(c) && digit_of(s2, c) < 0 {
                            assert(c != letter);
                            assert(whole.contains(c));
                            let q = choose|q: int| 0 <= q < whole.len() && whole[q] == c;
                            assert(q != 0);
                            assert(rest[q - 1] == c);
                        }
                    }
                    assert forall|x: u8| #[trigger] others@.contains(x) <==> (x < 10 && !used(s2, x)) by {
                        if used(s2, x) && x != number {
                            let q = choose|q: int| 0 <= q < s2.len() && (#[trigger] s2[q]).1 == x;
                            assert(s2[q] == before[q]);
                            assert(used(before, x));
                        }
                        if used(before, x) {
                            let q = choose|q: int| 0 <= q < before.len() && (#[trigger] before[q]).1 == x;
                            assert(s2[q] == before[q]);
                            assert(used(s2, x));
                        }
                        if x == number {
                            assert(s2[s2.len() - 1].1 == x);
                            assert(used(s2, x));
                        }
                    }
                    if on_track(ws, t, before, k as int, carry as int) && number as int == dt {
                        assert(extends(s2, t));
                        assert(on_track(ws, t, s2, k as int, carry as int));
                    }
                }
                if solve_row(sol, first_letters, matrix, k, carry, letters, li + 1, &others, Ghost(ws), Ghost(t)) {
                    proof {
                        assert forall|c: char| #[trigger] digit_of(sol@, c) >= 0 implies digit_of(before, c) >= 0 || exists|q: int|
                            k <= q < height(ws) && #[trigger] column(ws, q).contains(c) by {
                            if digit_of(before, c) < 0 && digit_of(s2, c) >= 0 {
                                assert(c == letter);
                                assert(k <= k < height(ws) && column(ws, k as int).contains(c));
                            }
                        }
                    }
                    return true;
                }
                sol.pop();
                assert(sol@ =~= before);
            } else {
                proof {
                    if on_track(ws, t, sol@, k as int, carry as int) {
                        let q = choose|q: int| 0 <= q < col.len() && col[q] == letter;
                        assert(all_assigned(t, column(ws, k as int)));
                        assert(digit_of(t, col[q]) >= 0);
                    }
                }
            }
            i = i + 1;
        }
        proof {
            if on_track(ws, t, sol@, k as int, carry as int) {
                let q = choose|q: int| 0 <= q < col.len() && col[q] == letter;
                assert(all_assigned(t, column(ws, k as int)));
                assert(digit_of(t, col[q]) >= 0);
                lemma_digit_below_ten(t, letter);
                let dd = dt as u8;
                if used(sol@, dd) {
                    let q = choose|q: int| 0 <= q < sol@.len() && (#[trigger] sol@[q]).1 == dd;
                    lemma_index_digit(sol@, q);
                    let c = sol@[q].0;
                    assert(digit_of(sol@, c) >= 0);
                    assert(digit_of(t, c) == dt);
                    lemma_same_digit_same_letter(t, c, letter);
                }
                assert(numbers@.contains(dd));
                let q = choose|q: int| 0 <= q < numbers@.len() && numbers@[q] == dd;
                assert(numbers@[q] as int == dt);
            }
        }
        false
    }
}

proof fn lemma_solution_found(ws: Seq<Seq<char>>, t: Seq<(char, u8)>)
    requires
        solves(ws, t),
    ensures
        found(ws, t, 0, 0),
{
    assert forall|c: char| leads(ws, c) && #[trigger] digit_of(t, c) >= 0 implies digit_of(t, c) != 0 by {
        let j = choose|j: int| 0 <= j < ws.len() && ws[j].len() > 0 && #[trigger] ws[j][0] == c;
        assert(digit_of(t, ws[j][0]) != 0);
    }
    assert forall|q: int| 0 <= q < height(ws) implies all_assigned(t, #[trigger] column(ws, q)) by {
        assert forall|i: int| 0 <= i < column(ws, q).len() implies digit_of(t, #[trigger] column(ws, q)[i]) >= 0 by {
            lemma_column_occurs(ws, q, i);
            let (j, p) = choose|j: int, p: int| 0 <= j < ws.len() && 0 <= p < ws[j].len() && #[trigger] ws[j][p] == column(ws, q)[i];
            assert(digit_of(t, ws[j][p]) >= 0);
        }
    }
}

proof fn lemma_found_solves(ws: Seq<Seq<char>>, sol: Seq<(char, u8)>)
    requires
        found(ws, sol, 0, 0),
        ws.len() >= 1,
        ws.last().len() == height(ws),
    ensures
        solves(ws, sol),
{
    assert forall|j: int, p: int| 0 <= j < ws.len() && 0 <= p < ws[j].len() implies digit_of(sol, #[trigger] ws[j][p]) >= 0 by {
        lemma_letter_in_column(ws, j, p);
        lemma_height_covers(ws, j);
        let col = column(ws, ws[j].len() - 1 - p);
        assert(all_assigned(sol, col));
        let q = choose|q: int| 0 <= q < col.len() && col[q] == ws[j][p];
    }
    assert forall|j: int| 0 <= j < ws.len() && ws[j].len() > 0 implies digit_of(sol, #[trigger] ws[j][0]) != 0 by {
        assert(leads(ws, ws[j][0]));
        assert(digit_of(sol, ws[j][0]) >= 0);
    }
}

/// A puzzle with a solution has at most ten distinct letters.
pub proof fn lemma_few_letters(ws: Seq<Seq<char>>, t: Seq<(char, u8)>)
    requires
        solves(ws, t),
    ensures
        letter_set(ws).finite(),
        letter_set(ws).len() <= 10,
{
    let keys = Seq::new(t.len(), |i: int| t[i].0);
    let digs = Seq::new(t.len(), |i: int| t[i].1 as int);
    assert(digs.no_duplicates()) by {
        assert forall|a: int, b: int| 0 <= a < digs.len() && 0 <= b < digs.len() && a != b implies digs[a] != digs[b] by {
            if a < b {
                assert(t[a].1 != t[b].1);
            } else {
                assert(t[b].1 != t[a].1);
            }
        }
    }
    assert(keys.no_duplicates()) by {
        assert forall|a: int, b: int| 0 <= a < keys.len() && 0 <= b < keys.len() && a != b implies keys[a] != keys[b] by {
            if a < b {
                assert(t[a].0 != t[b].0);
            } else {
                assert(t[b].0 != t[a].0);
            }
        }
    }
    digs.unique_seq_to_set();
    keys.unique_seq_to_set();
    vstd::set_lib::lemma_int_range(0, 10);
    assert(digs.to_set().subset_of(vstd::set_lib::set_int_range(0, 10))) by {
        assert forall|x: int| #[trigger] digs.to_set().contains(x) implies vstd::set_lib::set_int_range(0, 10).contains(x) by {
            let q = choose|q: int| 0 <= q < digs.len() && digs[q] == x;
            assert(t[q].1 < 10);
        }
    }
    vstd::set_lib::lemma_len_subset(digs.to_set(), vstd::set_lib::set_int_range(0, 10));
    assert(letter_set(ws).subset_of(keys.to_set())) by {
        assert forall|c: char| #[trigger] letter_set(ws).contains(c) implies keys.to_set().contains(c) by {
            let (j, p) = choose|j: int, p: int| 0 <= j < ws.len() && 0 <= p < ws[j].len() && #[trigger] ws[j][p] == c;
            assert(digit_of(t, ws[j][p]) >= 0);
            let q = lemma_digit_index(t, c);
            assert(keys[q] == c);
            assert(keys.contains(c));
        }
    }
    vstd::set_lib::lemma_len_subset(letter_set(ws), keys.to_set());
}

/// A puzzle, read from its text, with the outcome of solving it once it is
/// known.
pub struct Alphametics {
    words: Vec<Vec<char>>,
    matrix: Vec<Vec<char>>,
    first_letters: Vec<char>,
    letters: Vec<char>,
    solution: Option<Vec<(char, u8)>>,
    solved: bool,
}

/// The view of an optional assignment.
pub open spec fn outcome_view(o: Option<Vec<(char, u8)>>) -> Option<Seq<(char, u8)>> {
    match o {
        Some(v) => Some(v@),
        None => None,
    }
}

impl Alphametics {
    /// The words of the puzzle.
    pub closed spec fn puzzle(&self) -> Seq<Seq<char>> {
        rows(self.words@)
    }

    /// Whether the puzzle has been solved already.
    pub closed spec fn is_solved(&self) -> bool {
        self.solved
    }

    /// The outcome that is kept once the puzzle is solved.
    pub closed spec fn outcome(&self) -> Option<Seq<(char, u8)>> {
        outcome_view(self.solution)
    }

    /// The columns, the leading letters and the distinct letters agree with
    /// the words; a kept outcome solves them.
    pub closed spec fn wf(&self) -> bool {
        &&& self.matrix@.len() == height(rows(self.words@))
        &&& forall|k: int| 0 <= k < self.matrix@.len() ==> (#[trigger] self.matrix@[k])@ == column(rows(self.words@), k)
        &&& forall|c: char| #[trigger] self.first_letters@.contains(c) <==> leads(rows(self.words@), c)
        &&& self.letters@.no_duplicates()
        &&& self.letters@.to_set() == letter_set(rows(self.words@))
        &&& (self.solution matches Some(sol) ==> self.solved && solves(rows(self.words@), sol@))
        &&& (self.solved && self.solution is None ==> !exists|t: Seq<(char, u8)>| solves(rows(self.words@), t))
        &&& rows(self.words@).len() <= usize::MAX
    }

    /// Reads the puzzle from its text; nothing is solved yet.
    pub fn new(input: &str) -> (r: Self)
        ensures
            r.wf(),
            r.puzzle() == words_of(input@),
            !r.is_solved(),
            r.outcome() is None,
    {
        Self::from_words(parse_words(input))
    }

    /// Takes the puzzle as its words, the addends then the result; nothing is
    /// solved yet.
    pub fn from_words(words: Vec<Vec<char>>) -> (r: Self)
        ensures
            r.wf(),
            r.puzzle() == rows(words@),
            !r.is_solved(),
            r.outcome() is None,
    {
        let ghost ws = rows(words@);
        let h = word_height(&words);
        let mut matrix: Vec<Vec<char>> = Vec::new();
        let mut k: usize = 0;
        while k < h
            invariant
                h as int == height(ws),
                ws == rows(words@),
                k <= h,
                matrix@.len() == k,
                forall|q: int| 0 <= q < k ==> (#[trigger] matrix@[q])@ == column(ws, q),
            decreases h - k,
        {
            matrix.push(column_letters(&words, k));
            k = k + 1;
        }
        let mut first_letters: Vec<char> = Vec::new();
        let mut letters: Vec<char> = Vec::new();
        let mut j: usize = 0;
        while j < words.len()
            invariant
                ws == rows(words@),
                j <= words@.len(),
                forall|c: char| #[trigger] first_letters@.contains(c) <==> leads(ws.take(j as int), c),
                letters@.no_duplicates(),
                forall|c: char| #[trigger] letters@.contains(c) <==> occurs(ws.take(j as int), c),
            decreases words.len() - j,
        {
            let w = &words[j];
            let ghost wj = ws[j as int];
            assert(wj == w@);
            let mut p: usize = 0;
            while p < w.len()
                invariant
                    ws == rows(words@),
                    j < words@.len(),
                    wj == ws[j as int],
                    wj == w@,
                    p <= w@.len(),
                    letters@.no_duplicates(),
                    forall|c: char| #[trigger] letters@.contains(c) <==> (occurs(ws.take(j as int), c) || wj.take(p as int).contains(c)),
                decreases w.len() - p,
            {
                let c = w[p];
                let ghost before = letters@;
                if !has_char(&letters, c) {
                    letters.push(c);
                }
                assert forall|x: char| #[trigger] letters@.contains(x) <==> (before.contains(x) || x == c) by {
                    if letters@.contains(x) && x != c {
                        let q = choose|q: int| 0 <= q < letters@.len() && letters@[q] == x;
                        assert(before[q] == x);
                    }
                    if before.contains(x) {
                        let q = choose|q: int| 0 <= q < before.len() && before[q] == x;
                        assert(letters@[q] == x);
                    }
                    if x == c && !before.contains(x) {
                        assert(letters@[letters@.len() - 1] == x);
                    }
                }
                assert forall|x: char| #[trigger] wj.take(p + 1).contains(x) <==> (wj.take(p as int).contains(x) || x == c) by {
                    if x == c {
                        assert(wj.take(p + 1)[p as int] == x);
                    }
                    if wj.take(p + 1).contains(x) && x != c {
                        let q = choose|q: int| 0 <= q < p + 1 && #[trigger] wj.take(p + 1)[q] == x;
                        assert(wj.take(p as int)[q] == x);
                    }
                    if wj.take(p as int).contains(x) {
                        let q = choose|q: int| 0 <= q < p && #[trigger] wj.take(p as int)[q] == x;
                        assert(wj.take(p + 1)[q] == x);
                    }
                }
                p = p + 1;
            }
            let ghost fl0 = first_letters@;
            if w.len() > 0 {
                first_letters.push(w[0]);
            }
            assert forall|c: char| #[trigger] letters@.contains(c) <==> occurs(ws.take(j + 1), c) by {
                let t = ws.take(j + 1);
                if letters@.contains(c) {
                    if !occurs(ws.take(j as int), c) {
                        assert(wj.take(wj.len() as int) =~= wj);
                        let q = choose|q: int| 0 <= q < wj.len() && wj[q] == c;
                        assert(t[j as int][q] == c);
                    } else {
                        let (a, b) = choose|a: int, b: int| 0 <= a < j && 0 <= b < ws.take(j as int)[a].len() && #[trigger] ws.take(j as int)[a][b] == c;
                        assert(t[a][b] == c);
                    }
                }
                if occurs(t, c) {
                    let (a, b) = choose|a: int, b: int| 0 <= a < t.len() && 0 <= b < t[a].len() && #[trigger] t[a][b] == c;
                    if a < j {
                        assert(ws.take(j as int)[a][b] == c);
                    } else {
                        assert(wj.take(wj.len() as int) =~= wj);
                        assert(wj[b] == c);
                        assert(wj.take(wj.len() as int).contains(c));
                    }
                }
            }
            assert forall|c: char| #[trigger] first_letters@.contains(c) <==> leads(ws.take(j + 1), c) by {
                let t = ws.take(j + 1);
                if leads(t, c) {
                    let a = choose|a: int| 0 <= a < t.len() && t[a].len() > 0 && #[trigger] t[a][0] == c;
                    if a < j {
                        assert(ws.take(j as int)[a][0] == c);
                    }
                }
                if first_letters@.contains(c) && !fl0.contains(c) {
                    let q = choose|q: int| 0 <= q < first_letters@.len() && first_letters@[q] == c;
                    if q < fl0.len() {
                        assert(fl0[q] == c);
                    }
                    assert(t[j as int][0] == c);
                }
                if fl0.contains(c) {
                    let q = choose|q: int| 0 <= q < fl0.len() && fl0[q] == c;
                    assert(first_letters@[q] == c);
                }
                if leads(t, c) && !leads(ws.take(j as int), c) {
                    assert(first_letters@[first_letters@.len() - 1] == c);
                }
                if leads(ws.take(j as int), c) {
                    let a = choose|a: int| 0 <= a < j && ws.take(j as int)[a].len() > 0 && #[trigger] ws.take(j as int)[a][0] == c;
                    assert(t[a][0] == c);
                }
            }
            j = j + 1;
        }
        assert(ws.take(j as int) =~= ws);
        assert(letters@.to_set() =~= letter_set(ws));
        Alphametics { words, matrix, first_letters, letters, solution: None, solved: false }
    }

    /// Solves the puzzle, or gives back the outcome kept from the first
    /// time. The outcome is a solution where the puzzle has one, and `None`
    /// where it has none.
    pub fn solve(&mut self) -> (r: Option<Vec<(char, u8)>>)
        requires
            old(self).wf(),
        ensures
            final(self).wf(),
            final(self).puzzle() == old(self).puzzle(),
            final(self).is_solved(),
            outcome_view(r) == final(self).outcome(),
            old(self).is_solved() ==> final(self).outcome() == old(self).outcome(),
            r matches Some(sol) ==> solves(old(self).puzzle(), sol@),
            r matches Some(sol) ==> decimal_solution(old(self).puzzle(), sol@),
            r is None <==> !exists|t: Seq<(char, u8)>| solves(old(self).puzzle(), t),
            r is None <==> !exists|t: Seq<(char, u8)>| decimal_solution(old(self).puzzle(), t),
    {
        let ghost ws = rows(self.words@);
        if !self.solved {
            let mut sol: Vec<(char, u8)> = Vec::new();
            let aligned = self.words.len() >= 1 && self.words[self.words.len() - 1].len() == self.matrix.len();
            if aligned && self.letters.len() <= 10 {
                let ghost t = choose|t: Seq<(char, u8)>| solves(ws, t);
                proof {
                    assert(partial_ok(ws, sol@));
                    assert(extends(sol@, t));
                    if exists|t2: Seq<(char, u8)>| solves(ws, t2) {
                        lemma_solution_found(ws, t);
                    }
                }
                let ghost empty = sol@;
                if solve_column(&mut sol, &self.first_letters, &self.matrix, 0, 0, Ghost(ws), Ghost(t)) {
                    proof {
                        lemma_found_solves(ws, sol@);
                    }
                    self.solution = Some(sol);
                } else {
                    proof {
                        if exists|t2: Seq<(char, u8)>| solves(ws, t2) {
                            assert(on_track(ws, t, empty, 0, 0));
                        }
                    }
                    self.solution = None;
                }
            } else {
                proof {
                    self.letters@.unique_seq_to_set();
                    if exists|t: Seq<(char, u8)>| solves(ws, t) {
                        let t = choose|t: Seq<(char, u8)>| solves(ws, t);
                        lemma_few_letters(ws, t);
                        assert(ws.last() == self.words@[self.words@.len() - 1]@);
                        assert(false);
                    }
                }
                self.solution = None;
            }
            self.solved = true;
        }
        proof {
            if self.solution is Some {
                assert(solves(ws, self.solution->0@));
            }
            assert forall|t: Seq<(char, u8)>| decimal_solution(ws, t) <==> solves(ws, t) by {
                lemma_decimal_iff_solves(ws, t);
            }
        }
        match &self.solution {
            Some(sol) => Some(copy_assignment(sol)),
            None => None,
        }
    }
}

/// Solves the puzzle written in `input`: a digit for each of its letters, or
/// `None` where no assignment makes every column add up.
pub fn solve(input: &str) -> (r: Option<Vec<(char, u8)>>)
    ensures
        r matches Some(sol) ==> solves(words_of(input@), sol@),
        r matches Some(sol) ==> decimal_solution(words_of(input@), sol@),
        r is None <==> !exists|t: Seq<(char, u8)>| solves(words_of(input@), t),
        r is None <==> !exists|t: Seq<(char, u8)>| decimal_solution(words_of(input@), t),
        letter_set(words_of(input@)).len() > 10 ==> r is None,
{
    let mut puzzle = Alphametics::new(input);
    let r = puzzle.solve();
    proof {
        if r is Some {
            lemma_few_letters(words_of(input@), r->0@);
        }
    }
    r
}

} // verus!
