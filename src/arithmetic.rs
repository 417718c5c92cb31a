use vstd::prelude::*;

use crate::alphametics::{
    column, column_outcome, columns_hold, digit_of, digit_sum, height, injective, lemma_column_occurs, occurs, solves,
};

verus! {

/// Ten to the power `k`.
pub open spec fn pow10(k: nat) -> int
    decreases k,
{
    if k == 0 {
        1
    } else {
        10 * pow10((k - 1) as nat)
    }
}

/// The digit of `w` at place `i` counted from the right; zero beyond its
/// length.
pub open spec fn place_digit(sol: Seq<(char, u8)>, w: Seq<char>, i: int) -> int {
    if 0 <= i < w.len() {
        digit_of(sol, w[w.len() - 1 - i])
    } else {
        0
    }
}

/// The value of the lowest `k` places of `w`.
pub open spec fn value_below(sol: Seq<(char, u8)>, w: Seq<char>, k: nat) -> int
    decreases k,
{
    if k == 0 {
        0
    } else {
        value_below(sol, w, (k - 1) as nat) + pow10((k - 1) as nat) * place_digit(sol, w, k - 1)
    }
}

/// The decimal value of `w` under the assignment.
pub open spec fn word_value(sol: Seq<(char, u8)>, w: Seq<char>) -> int {
    value_below(sol, w, w.len())
}

/// The sum of the decimal values of the words.
pub open spec fn words_total(sol: Seq<(char, u8)>, ws: Seq<Seq<char>>) -> int
    decreases ws.len(),
{
    if ws.len() == 0 {
        0
    } else {
        words_total(sol, ws.drop_last()) + word_value(sol, ws.last())
    }
}

/// The sum of the values of the lowest `k` places of the words.
pub open spec fn total_below(sol: Seq<(char, u8)>, ws: Seq<Seq<char>>, k: nat) -> int
    decreases ws.len(),
{
    if ws.len() == 0 {
        0
    } else {
        total_below(sol, ws.drop_last(), k) + value_below(sol, ws.last(), k)
    }
}

/// The sum of the digits of the words at place `k`.
pub open spec fn place_sum(sol: Seq<(char, u8)>, ws: Seq<Seq<char>>, k: int) -> int
    decreases ws.len(),
{
    if ws.len() == 0 {
        0
    } else {
        place_sum(sol, ws.drop_last(), k) + place_digit(sol, ws.last(), k)
    }
}

/// The carry that column `k` receives when the columns are evaluated from
/// the lowest one with no carry.
pub open spec fn carry_at(ws: Seq<Seq<char>>, sol: Seq<(char, u8)>, k: nat) -> int
    decreases k,
{
    if k == 0 {
        0
    } else {
        match column_outcome(sol, column(ws, k - 1), carry_at(ws, sol, (k - 1) as nat)) {
            Some(c) => c,
            None => 0,
        }
    }
}

proof fn lemma_column_sum(sol: Seq<(char, u8)>, ws: Seq<Seq<char>>, k: int)
    requires
        k >= 0,
    ensures
        digit_sum(sol, column(ws, k)) == place_sum(sol, ws, k),
    decreases ws.len(),
{
    if ws.len() > 0 {
        lemma_column_sum(sol, ws.drop_last(), k);
        let c = column(ws.drop_last(), k);
        let w = ws.last();
        if k < w.len() {
            assert(c.push(w[w.len() - 1 - k]).drop_last() =~= c);
        }
    }
}

proof fn lemma_total_step(sol: Seq<(char, u8)>, ws: Seq<Seq<char>>, k: nat)
    ensures
        total_below(sol, ws, k + 1) == total_below(sol, ws, k) + pow10(k) * place_sum(sol, ws, k as int),
    decreases ws.len(),
{
    if ws.len() > 0 {
        lemma_total_step(sol, ws.drop_last(), k);
        let p = pow10(k);
        let a = place_sum(sol, ws.drop_last(), k as int);
        let b = place_digit(sol, ws.last(), k as int);
        assert(p * (a + b) == p * a + p * b) by (nonlinear_arith);
    }
}

pub(crate) proof fn lemma_carries(ws: Seq<Seq<char>>, sol: Seq<(char, u8)>, k: nat)
    requires
        columns_hold(ws, sol, 0, 0),
        k <= height(ws),
    ensures
        columns_hold(ws, sol, k as int, carry_at(ws, sol, k)),
    decreases k,
{
    if k > 0 {
        lemma_carries(ws, sol, (k - 1) as nat);
    }
}

proof fn lemma_height_bounds(ws: Seq<Seq<char>>)
    ensures
        forall|j: int| 0 <= j < ws.len() ==> (#[trigger] ws[j]).len() <= height(ws),
        height(ws) >= 0,
    decreases ws.len(),
{
    if ws.len() > 0 {
        lemma_height_bounds(ws.drop_last());
        assert forall|j: int| 0 <= j < ws.len() implies (#[trigger] ws[j]).len() <= height(ws) by {
            if j < ws.len() - 1 {
                assert(ws[j] == ws.drop_last()[j]);
            }
        }
    }
}

proof fn lemma_value_settles(sol: Seq<(char, u8)>, w: Seq<char>, k: nat)
    requires
        k >= w.len(),
    ensures
        value_below(sol, w, k) == word_value(sol, w),
    decreases k,
{
    if k > w.len() {
        lemma_value_settles(sol, w, (k - 1) as nat);
    }
}

proof fn lemma_total_settles(sol: Seq<(char, u8)>, ws: Seq<Seq<char>>, k: nat)
    requires
        forall|j: int| 0 <= j < ws.len() ==> (#[trigger] ws[j]).len() <= k,
    ensures
        total_below(sol, ws, k) == words_total(sol, ws),
    decreases ws.len(),
{
    if ws.len() > 0 {
        assert forall|j: int| 0 <= j < ws.drop_last().len() implies (#[trigger] ws.drop_last()[j]).len() <= k by {
            assert(ws.drop_last()[j] == ws[j]);
        }
        lemma_total_settles(sol, ws.drop_last(), k);
        assert(ws[ws.len() - 1].len() <= k);
        lemma_value_settles(sol, ws.last(), k);
    }
}

proof fn lemma_total_none(sol: Seq<(char, u8)>, ws: Seq<Seq<char>>)
    ensures
        total_below(sol, ws, 0) == 0,
    decreases ws.len(),
{
    if ws.len() > 0 {
        lemma_total_none(sol, ws.drop_last());
    }
}

proof fn lemma_telescope(ws: Seq<Seq<char>>, sol: Seq<(char, u8)>, k: nat)
    requires
        ws.len() >= 1,
        ws.last().len() == height(ws),
        columns_hold(ws, sol, 0, 0),
        k <= height(ws),
    ensures
        total_below(sol, ws.drop_last(), k) == value_below(sol, ws.last(), k) + pow10(k) * carry_at(ws, sol, k),
    decreases k,
{
    if k > 0 {
        let i = (k - 1) as nat;
        lemma_telescope(ws, sol, i);
        lemma_carries(ws, sol, i);
        let adds = ws.drop_last();
        let r = ws.last();
        assert(ws.drop_last().push(ws.last()) =~= ws);
        let col = column(ws, i as int);
        assert(col == column(adds, i as int).push(r[r.len() - 1 - i]));
        assert(col.drop_last() =~= column(adds, i as int));
        lemma_column_sum(sol, adds, i as int);
        lemma_total_step(sol, adds, i);
        let c = carry_at(ws, sol, i);
        let s = place_sum(sol, adds, i as int);
        let d = place_digit(sol, r, i as int);
        let next = carry_at(ws, sol, k);
        assert(column_outcome(sol, col, c) == Some(next));
        assert(d == (s + c) % 10 && next == (s + c) / 10);
        assert(s + c == d + 10 * next);
        let p = pow10(i);
        assert(p * c + p * s == p * d + (10 * p) * next) by (nonlinear_arith)
            requires
                s + c == d + 10 * next,
        ;
        assert(value_below(sol, r, k) == value_below(sol, r, i) + p * d);
        assert(pow10(k) == 10 * p);
        assert(total_below(sol, adds, k) == total_below(sol, adds, i) + p * s);
    } else {
        lemma_total_none(sol, ws.drop_last());
    }
}

/// Where the result word (the last one) is at least as long as every addend
/// and the columns add up, the addends' decimal values add up to the result's
/// value plus the carry left after the last column, shifted past it.
proof fn lemma_sum_with_final_carry(ws: Seq<Seq<char>>, sol: Seq<(char, u8)>)
    requires
        ws.len() >= 1,
        solves(ws, sol),
        ws.last().len() == height(ws),
    ensures
        words_total(sol, ws.drop_last()) == word_value(sol, ws.last()) + pow10(height(ws) as nat) * carry_at(
            ws,
            sol,
            height(ws) as nat,
        ),
{
    lemma_height_bounds(ws);
    let h = height(ws) as nat;
    lemma_telescope(ws, sol, h);
    assert forall|j: int| 0 <= j < ws.drop_last().len() implies (#[trigger] ws.drop_last()[j]).len() <= h by {
        assert(ws.drop_last()[j] == ws[j]);
    }
    lemma_total_settles(sol, ws.drop_last(), h);
}

/// Under an assignment that solves the puzzle, the addends' decimal values add
/// up exactly to the result's value.
pub proof fn lemma_sum_holds(ws: Seq<Seq<char>>, sol: Seq<(char, u8)>)
    requires
        solves(ws, sol),
    ensures
        words_total(sol, ws.drop_last()) == word_value(sol, ws.last()),
{
    lemma_carries(ws, sol, height(ws) as nat);
    lemma_sum_with_final_carry(ws, sol);
}

pub(crate) proof fn lemma_digit_below_ten(sol: Seq<(char, u8)>, c: char)
    requires
        forall|i: int| 0 <= i < sol.len() ==> (#[trigger] sol[i]).1 < 10,
    ensures
        digit_of(sol, c) < 10,
    decreases sol.len(),
{
    if sol.len() > 0 {
        assert forall|i: int| 0 <= i < sol.drop_last().len() implies (#[trigger] sol.drop_last()[i]).1 < 10 by {
            assert(sol.drop_last()[i] == sol[i]);
        }
        lemma_digit_below_ten(sol.drop_last(), c);
        assert(sol[sol.len() - 1].1 < 10);
    }
}

pub(crate) proof fn lemma_assigned_sum_nonneg(sol: Seq<(char, u8)>, cs: Seq<char>)
    requires
        forall|i: int| 0 <= i < cs.len() ==> digit_of(sol, #[trigger] cs[i]) >= 0,
    ensures
        digit_sum(sol, cs) >= 0,
    decreases cs.len(),
{
    if cs.len() > 0 {
        assert forall|i: int| 0 <= i < cs.drop_last().len() implies digit_of(sol, #[trigger] cs.drop_last()[i]) >= 0 by {
            assert(cs.drop_last()[i] == cs[i]);
        }
        lemma_assigned_sum_nonneg(sol, cs.drop_last());
        assert(digit_of(sol, cs[cs.len() - 1]) >= 0);
    }
}

proof fn lemma_pow10_positive(k: nat)
    ensures
        pow10(k) >= 1,
    decreases k,
{
    if k > 0 {
        lemma_pow10_positive((k - 1) as nat);
    }
}

proof fn lemma_value_nonneg(sol: Seq<(char, u8)>, w: Seq<char>, k: nat)
    requires
        forall|i: int| 0 <= i < w.len() ==> digit_of(sol, #[trigger] w[i]) >= 0,
    ensures
        value_below(sol, w, k) >= 0,
    decreases k,
{
    if k > 0 {
        let i = (k - 1) as nat;
        lemma_value_nonneg(sol, w, i);
        lemma_pow10_positive(i);
        if 0 <= i < w.len() {
            assert(digit_of(sol, w[w.len() - 1 - i]) >= 0);
        }
        let p = pow10(i);
        let d = place_digit(sol, w, i as int);
        assert(p * d >= 0) by (nonlinear_arith)
            requires
                p >= 1,
                d >= 0,
        ;
    }
}

/// A puzzle of a single non-empty word, with no addends, has no solution: the
/// empty sum is zero, and a word whose leading digit is not zero is not.
pub proof fn lemma_single_word_unsolvable(ws: Seq<Seq<char>>, sol: Seq<(char, u8)>)
    requires
        ws.len() == 1,
        ws[0].len() > 0,
    ensures
        !solves(ws, sol),
{
    if solves(ws, sol) {
        lemma_sum_holds(ws, sol);
        let w = ws[0];
        assert(ws.last() == w);
        assert(ws.drop_last().len() == 0);
        assert(words_total(sol, ws.drop_last()) == 0);
        let i = (w.len() - 1) as nat;
        assert forall|q: int| 0 <= q < w.len() implies digit_of(sol, #[trigger] w[q]) >= 0 by {
            assert(ws[0][q] == w[q]);
        }
        lemma_value_nonneg(sol, w, i);
        lemma_pow10_positive(i);
        assert(w[w.len() - 1 - i] == w[0]);
        assert(digit_of(sol, ws[0][0]) != 0);
        let p = pow10(i);
        let d = place_digit(sol, w, i as int);
        assert(d >= 1);
        assert(p * d >= 1) by (nonlinear_arith)
            requires
                p >= 1,
                d >= 1,
        ;
        assert(word_value(sol, w) == value_below(sol, w, i) + p * d);
    }
}

/// The value of `w` from place `k` up, as a number of its own.
pub open spec fn value_from(sol: Seq<(char, u8)>, w: Seq<char>, k: nat) -> int
    decreases w.len() - k,
{
    if k >= w.len() {
        0
    } else {
        place_digit(sol, w, k as int) + 10 * value_from(sol, w, k + 1)
    }
}

/// The sum over the words of their values from place `k` up.
pub open spec fn total_from(sol: Seq<(char, u8)>, ws: Seq<Seq<char>>, k: nat) -> int
    decreases ws.len(),
{
    if ws.len() == 0 {
        0
    } else {
        total_from(sol, ws.drop_last(), k) + value_from(sol, ws.last(), k)
    }
}

/// `sol` is a solution in decimal terms: each letter of the puzzle, and no
/// other character, has its own digit; no leading letter has zero; and the
/// addends' values add up to the value of the result, the last word.
pub open spec fn decimal_solution(ws: Seq<Seq<char>>, sol: Seq<(char, u8)>) -> bool {
    &&& ws.len() >= 1
    &&& injective(sol)
    &&& forall|i: int| 0 <= i < sol.len() ==> (#[trigger] sol[i]).1 < 10 && occurs(ws, sol[i].0)
    &&& forall|j: int, p: int|
        0 <= j < ws.len() && 0 <= p < ws[j].len() ==> digit_of(sol, #[trigger] ws[j][p]) >= 0
    &&& forall|j: int| 0 <= j < ws.len() && ws[j].len() > 0 ==> digit_of(sol, #[trigger] ws[j][0]) != 0
    &&& words_total(sol, ws.drop_last()) == word_value(sol, ws.last())
}

proof fn lemma_value_split(sol: Seq<(char, u8)>, w: Seq<char>, k: nat)
    ensures
        word_value(sol, w) == value_below(sol, w, k) + pow10(k) * value_from(sol, w, k),
    decreases w.len() - k,
{
    if k >= w.len() {
        lemma_value_settles(sol, w, k);
    } else {
        lemma_value_split(sol, w, k + 1);
        let p = pow10(k);
        let d = place_digit(sol, w, k as int);
        let v = value_from(sol, w, k + 1);
        assert(pow10(k + 1) == 10 * p);
        assert((10 * p) * v + p * d == p * (d + 10 * v)) by (nonlinear_arith);
    }
}

proof fn lemma_total_split(sol: Seq<(char, u8)>, ws: Seq<Seq<char>>, k: nat)
    ensures
        words_total(sol, ws) == total_below(sol, ws, k) + pow10(k) * total_from(sol, ws, k),
    decreases ws.len(),
{
    if ws.len() > 0 {
        lemma_total_split(sol, ws.drop_last(), k);
        lemma_value_split(sol, ws.last(), k);
        let p = pow10(k);
        let a = total_from(sol, ws.drop_last(), k);
        let b = value_from(sol, ws.last(), k);
        assert(p * a + p * b == p * (a + b)) by (nonlinear_arith);
    }
}

proof fn lemma_total_from_step(sol: Seq<(char, u8)>, ws: Seq<Seq<char>>, k: nat)
    ensures
        total_from(sol, ws, k) == place_sum(sol, ws, k as int) + 10 * total_from(sol, ws, k + 1),
    decreases ws.len(),
{
    if ws.len() > 0 {
        lemma_total_from_step(sol, ws.drop_last(), k);
    }
}

proof fn lemma_total_from_top(sol: Seq<(char, u8)>, ws: Seq<Seq<char>>, k: nat)
    requires
        forall|j: int| 0 <= j < ws.len() ==> (#[trigger] ws[j]).len() <= k,
    ensures
        total_from(sol, ws, k) == 0,
    decreases ws.len(),
{
    if ws.len() > 0 {
        assert forall|j: int| 0 <= j < ws.drop_last().len() implies (#[trigger] ws.drop_last()[j]).len() <= k by {
            assert(ws.drop_last()[j] == ws[j]);
        }
        lemma_total_from_top(sol, ws.drop_last(), k);
        assert(ws[ws.len() - 1].len() <= k);
    }
}

proof fn lemma_value_below_bound(sol: Seq<(char, u8)>, w: Seq<char>, k: nat)
    requires
        forall|i: int| 0 <= i < w.len() ==> 0 <= digit_of(sol, #[trigger] w[i]) < 10,
    ensures
        0 <= value_below(sol, w, k) < pow10(k),
    decreases k,
{
    if k > 0 {
        let i = (k - 1) as nat;
        lemma_value_below_bound(sol, w, i);
        if 0 <= i < w.len() {
            assert(0 <= digit_of(sol, w[w.len() - 1 - i]) < 10);
        }
        let p = pow10(i);
        let d = place_digit(sol, w, i as int);
        let v = value_below(sol, w, i);
        assert(0 <= v + p * d < 10 * p) by (nonlinear_arith)
            requires
                0 <= v < p,
                0 <= d < 10,
        ;
    }
}

proof fn lemma_pow10_grows(a: nat, b: nat)
    requires
        a <= b,
    ensures
        pow10(a) <= pow10(b),
    decreases b,
{
    if a < b {
        lemma_pow10_grows(a, (b - 1) as nat);
        lemma_pow10_positive((b - 1) as nat);
    }
}

proof fn lemma_total_at_least(sol: Seq<(char, u8)>, ws: Seq<Seq<char>>, j: int)
    requires
        0 <= j < ws.len(),
        forall|a: int, b: int| 0 <= a < ws.len() && 0 <= b < ws[a].len() ==> digit_of(sol, #[trigger] ws[a][b]) >= 0,
    ensures
        words_total(sol, ws) >= word_value(sol, ws[j]),
        words_total(sol, ws) >= 0,
    decreases ws.len(),
{
    let last = ws[ws.len() - 1];
    assert forall|b: int| 0 <= b < last.len() implies digit_of(sol, #[trigger] last[b]) >= 0 by {
        assert(ws[ws.len() - 1][b] == last[b]);
    }
    lemma_value_nonneg(sol, last, last.len());
    assert(word_value(sol, last) >= 0);
    assert(words_total(sol, ws) == words_total(sol, ws.drop_last()) + word_value(sol, last));
    if ws.len() > 1 {
        let d = ws.drop_last();
        assert forall|a: int, b: int| 0 <= a < d.len() && 0 <= b < d[a].len() implies digit_of(sol, #[trigger] d[a][b]) >= 0 by {
            assert(d[a] == ws[a]);
            assert(ws[a][b] == d[a][b]);
        }
        if j < ws.len() - 1 {
            assert(d[j] == ws[j]);
            lemma_total_at_least(sol, d, j);
        } else {
            lemma_total_at_least(sol, d, 0);
        }
    } else {
        assert(ws.drop_last().len() == 0);
        assert(words_total(sol, ws.drop_last()) == 0);
    }
}

proof fn lemma_height_attained(ws: Seq<Seq<char>>)
    requires
        ws.len() >= 1,
    ensures
        exists|j: int| 0 <= j < ws.len() && (#[trigger] ws[j]).len() == height(ws),
    decreases ws.len(),
{
    if ws.len() > 1 {
        lemma_height_attained(ws.drop_last());
        let j = choose|j: int| 0 <= j < ws.drop_last().len() && (#[trigger] ws.drop_last()[j]).len() == height(ws.drop_last());
        assert(ws[j] == ws.drop_last()[j]);
        if ws.last().len() > height(ws.drop_last()) {
            assert(ws[ws.len() - 1].len() == height(ws));
        }
    } else {
        assert(height(ws.drop_last()) == 0);
        assert(ws[0].len() == height(ws));
    }
}

proof fn lemma_decimal_aligned(ws: Seq<Seq<char>>, sol: Seq<(char, u8)>)
    requires
        decimal_solution(ws, sol),
    ensures
        ws.last().len() == height(ws),
{
    lemma_height_bounds(ws);
    lemma_height_attained(ws);
    let r = ws.last();
    if r.len() != height(ws) {
        let j = choose|j: int| 0 <= j < ws.len() && (#[trigger] ws[j]).len() == height(ws);
        assert(r == ws[ws.len() - 1]);
        assert(j != ws.len() - 1);
        let adds = ws.drop_last();
        let w = ws[j];
        assert(adds[j] == w);
        assert forall|a: int, b: int| 0 <= a < adds.len() && 0 <= b < adds[a].len() implies digit_of(sol, #[trigger] adds[a][b]) >= 0 by {
            assert(adds[a] == ws[a]);
            assert(ws[a][b] == adds[a][b]);
        }
        lemma_total_at_least(sol, adds, j);
        assert forall|i: int| 0 <= i < r.len() implies 0 <= digit_of(sol, #[trigger] r[i]) < 10 by {
            assert(ws[ws.len() - 1][i] == r[i]);
            lemma_digit_below_ten(sol, r[i]);
        }
        lemma_value_below_bound(sol, r, r.len());
        assert(w.len() > r.len());
        let i = (w.len() - 1) as nat;
        assert forall|q: int| 0 <= q < w.len() implies digit_of(sol, #[trigger] w[q]) >= 0 by {
            assert(ws[j][q] == w[q]);
        }
        lemma_value_nonneg(sol, w, i);
        lemma_pow10_grows(r.len(), i);
        assert(w[w.len() - 1 - i] == w[0]);
        assert(digit_of(sol, ws[j][0]) != 0);
        let p = pow10(i);
        let d = place_digit(sol, w, i as int);
        assert(p * d >= p) by (nonlinear_arith)
            requires
                p >= 1,
                d >= 1,
        ;
        lemma_pow10_positive(i);
        assert(word_value(sol, w) == value_below(sol, w, i) + p * d);
    }
}

proof fn lemma_decimal_carries(ws: Seq<Seq<char>>, sol: Seq<(char, u8)>, k: nat)
    requires
        decimal_solution(ws, sol),
        ws.last().len() == height(ws),
        k <= height(ws),
    ensures
        carry_at(ws, sol, k) + total_from(sol, ws.drop_last(), k) == value_from(sol, ws.last(), k),
        k < height(ws) ==> column_outcome(sol, column(ws, k as int), carry_at(ws, sol, k)) == Some(
            carry_at(ws, sol, k + 1),
        ),
        k < height(ws) ==> carry_at(ws, sol, k + 1) + total_from(sol, ws.drop_last(), k + 1) == value_from(
            sol,
            ws.last(),
            k + 1,
        ),
    decreases k,
{
    let adds = ws.drop_last();
    let r = ws.last();
    if k == 0 {
        lemma_total_split(sol, adds, 0);
        lemma_total_none(sol, adds);
        lemma_value_split(sol, r, 0);
    } else {
        lemma_decimal_carries(ws, sol, (k - 1) as nat);
    }
    if k < height(ws) {
        assert(ws.drop_last().push(ws.last()) =~= ws);
        let col = column(ws, k as int);
        assert(col == column(adds, k as int).push(r[r.len() - 1 - k]));
        assert(col.drop_last() =~= column(adds, k as int));
        lemma_column_sum(sol, adds, k as int);
        lemma_total_from_step(sol, adds, k);
        assert forall|i: int| 0 <= i < col.len() implies digit_of(sol, #[trigger] col[i]) >= 0 by {
            lemma_column_occurs(ws, k as int, i);
            let (a, b) = choose|a: int, b: int| 0 <= a < ws.len() && 0 <= b < ws[a].len() && #[trigger] ws[a][b] == col[i];
            assert(digit_of(sol, ws[a][b]) >= 0);
        }
        let c = carry_at(ws, sol, k);
        let s = place_sum(sol, adds, k as int);
        let d = place_digit(sol, r, k as int);
        assert(d == digit_of(sol, col[col.len() - 1]));
        assert(ws[ws.len() - 1][r.len() - 1 - k] == r[r.len() - 1 - k]);
        lemma_digit_below_ten(sol, r[r.len() - 1 - k]);
        let m = value_from(sol, r, k + 1) - total_from(sol, adds, k + 1);
        assert(c + s == d + 10 * m);
        assert((d + 10 * m) % 10 == d && (d + 10 * m) / 10 == m) by (nonlinear_arith)
            requires
                0 <= d < 10,
        ;
        assert(column_outcome(sol, col, c) == Some(m));
        assert(carry_at(ws, sol, k + 1) == m);
    }
}

proof fn lemma_decimal_columns(ws: Seq<Seq<char>>, sol: Seq<(char, u8)>, k: nat)
    requires
        decimal_solution(ws, sol),
        ws.last().len() == height(ws),
        k <= height(ws),
    ensures
        columns_hold(ws, sol, k as int, carry_at(ws, sol, k)),
    decreases height(ws) - k,
{
    if k < height(ws) {
        lemma_decimal_columns(ws, sol, k + 1);
        lemma_decimal_carries(ws, sol, k);
    } else {
        lemma_decimal_carries(ws, sol, k);
        lemma_height_bounds(ws);
        assert forall|j: int| 0 <= j < ws.drop_last().len() implies (#[trigger] ws.drop_last()[j]).len() <= k by {
            assert(ws.drop_last()[j] == ws[j]);
        }
        lemma_total_from_top(sol, ws.drop_last(), k);
    }
}

/// An assignment is a solution in decimal terms exactly when it passes the
/// column checks: the result word then reaches the top column, every column
/// adds up, and no carry is left.
pub proof fn lemma_decimal_iff_solves(ws: Seq<Seq<char>>, sol: Seq<(char, u8)>)
    ensures
        decimal_solution(ws, sol) <==> solves(ws, sol),
{
    if decimal_solution(ws, sol) {
        lemma_decimal_aligned(ws, sol);
        lemma_decimal_columns(ws, sol, 0);
    }
    if solves(ws, sol) {
        lemma_sum_holds(ws, sol);
    }
}

} // verus!
