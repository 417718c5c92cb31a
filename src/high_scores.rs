use vstd::prelude::*;

verus! {

broadcast use vstd::seq_lib::group_to_multiset_ensures, vstd::multiset::group_multiset_axioms;

/// A player's scores, oldest first.
#[derive(Debug)]
pub struct HighScores<'a> {
    scores: &'a [u32],
}

/// The largest of a non-empty sequence of scores.
pub open spec fn seq_max(s: Seq<u32>) -> u32
    decreases s.len(),
{
    if s.len() <= 1 {
        s[0]
    } else {
        let m = seq_max(s.drop_last());
        if s.last() > m {
            s.last()
        } else {
            m
        }
    }
}

/// `r` is made of the `min(3, len)` largest scores of `s`, largest first.
pub open spec fn is_top_three(s: Seq<u32>, r: Seq<u32>) -> bool {
    &&& r.len() == if s.len() < 3 {
        s.len()
    } else {
        3
    }
    &&& forall|i: int, j: int| 0 <= i < j < r.len() ==> r[i] >= r[j]
    &&& r.to_multiset().subset_of(s.to_multiset())
    &&& forall|x: u32, j: int|
        #![trigger s.to_multiset().count(x), r[j]]
        0 <= j < r.len() && s.to_multiset().count(x) > r.to_multiset().count(x) ==> x <= r[j]
}

proof fn lemma_seq_max(s: Seq<u32>)
    requires
        s.len() > 0,
    ensures
        s.contains(seq_max(s)),
        forall|i: int| 0 <= i < s.len() ==> s[i] <= seq_max(s),
    decreases s.len(),
{
    if s.len() > 1 {
        lemma_seq_max(s.drop_last());
        let m = seq_max(s.drop_last());
        let q = choose|q: int| 0 <= q < s.drop_last().len() && s.drop_last()[q] == m;
        assert(s[q] == m);
        assert forall|i: int| 0 <= i < s.len() implies s[i] <= seq_max(s) by {
            if i < s.len() - 1 {
                assert(s[i] == s.drop_last()[i]);
            }
        }
    } else {
        assert(s[0] == seq_max(s));
    }
}

impl<'a> HighScores<'a> {
    /// The scores, oldest first.
    pub closed spec fn view_scores(&self) -> Seq<u32> {
        self.scores@
    }

    /// Keeps the scores.
    pub fn new(scores: &'a [u32]) -> (r: Self)
        ensures
            r.view_scores() == scores@,
    {
        HighScores { scores: scores }
    }

    /// All the scores, oldest first.
    pub fn scores(&self) -> (r: &[u32])
        ensures
            r@ == self.view_scores(),
    {
        self.scores
    }

    /// The most recent score; none where there are no scores.
    pub fn latest(&self) -> (r: Option<u32>)
        ensures
            self.view_scores().len() == 0 ==> r is None,
            self.view_scores().len() > 0 ==> r == Some(self.view_scores().last()),
    {
        if self.scores.len() == 0 {
            None
        } else {
            Some(self.scores[self.scores.len() - 1])
        }
    }

    /// The highest score; none where there are no scores.
    pub fn personal_best(&self) -> (r: Option<u32>)
        ensures
            self.view_scores().len() == 0 ==> r is None,
            self.view_scores().len() > 0 ==> r == Some(seq_max(self.view_scores())),
    {
        let s = self.scores;
        if s.len() == 0 {
            return None;
        }
        let mut best: u32 = s[0];
        let mut i: usize = 1;
        while i < s.len()
            invariant
                1 <= i <= s@.len(),
                best == seq_max(s@.take(i as int)),
            decreases s.len() - i,
        {
            assert(s@.take(i + 1).drop_last() =~= s@.take(i as int));
            if s[i] > best {
                best = s[i];
            }
            i = i + 1;
        }
        assert(s@.take(i as int) =~= s@);
        Some(best)
    }

    /// The three highest scores, highest first; fewer where there are fewer.
    pub fn personal_top_three(&self) -> (r: Vec<u32>)
        ensures
            is_top_three(self.view_scores(), r@),
    {
        let s = self.scores;
        let mut rest: Vec<u32> = Vec::new();
        let mut i: usize = 0;
        while i < s.len()
            invariant
                i <= s@.len(),
                rest@ == s@.take(i as int),
            decreases s.len() - i,
        {
            rest.push(s[i]);
            assert(rest@ =~= s@.take(i + 1));
            i = i + 1;
        }
        assert(rest@ =~= s@);
        let mut r: Vec<u32> = Vec::new();
        assert(r@.to_multiset().add(rest@.to_multiset()) =~= s@.to_multiset());
        while r.len() < 3 && rest.len() > 0
            invariant
                r@.len() <= 3,
                r@.len() + rest@.len() == s@.len(),
                r@.to_multiset().add(rest@.to_multiset()) == s@.to_multiset(),
                forall|a: int, b: int| 0 <= a < b < r@.len() ==> r@[a] >= r@[b],
                forall|x: u32, j: int| #![trigger rest@.contains(x), r@[j]] 0 <= j < r@.len() && rest@.contains(x) ==> x <= r@[j],
            decreases rest.len(),
        {
            let mut m: usize = 0;
            let mut q: usize = 1;
            while q < rest.len()
                invariant
                    0 <= m < q <= rest@.len(),
                    forall|t: int| 0 <= t < q ==> rest@[t] <= rest@[m as int],
                decreases rest.len() - q,
            {
                if rest[q] > rest[m] {
                    m = q;
                }
                q = q + 1;
            }
            let ghost old_rest = rest@;
            let ghost old_r = r@;
            let y = rest.remove(m);
            r.push(y);
            assert(old_rest.contains(y));
            assert(r@.to_multiset().add(rest@.to_multiset()) =~= s@.to_multiset());
            assert forall|x: u32, j: int| #![trigger rest@.contains(x), r@[j]] 0 <= j < r@.len() && rest@.contains(x) implies x <= r@[j] by {
                let t = choose|t: int| 0 <= t < rest@.len() && rest@[t] == x;
                if t < m {
                    assert(old_rest[t] == x);
                } else {
                    assert(old_rest[t + 1] == x);
                }
                assert(old_rest.contains(x));
                if j < old_r.len() {
                    assert(r@[j] == old_r[j]);
                }
            }
            assert forall|a: int, b: int| 0 <= a < b < r@.len() implies r@[a] >= r@[b] by {
                if b == old_r.len() {
                    assert(r@[a] == old_r[a]);
                    assert(old_rest.contains(y));
                } else {
                    assert(r@[a] == old_r[a] && r@[b] == old_r[b]);
                }
            }
        }
        assert forall|x: u32, j: int| #![trigger s@.to_multiset().count(x), r@[j]] 0 <= j < r@.len() && s@.to_multiset().count(x) > r@.to_multiset().count(x) implies x <= r@[j] by {
            assert(rest@.to_multiset().count(x) > 0);
            assert(rest@.contains(x));
        }
        r
    }
}

} // verus!
