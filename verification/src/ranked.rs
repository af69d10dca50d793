//! Match results and their bounded ranking.
//!
//! Results are ranked by score, best first; among results of equal score
//! the one that arrived first stays first. A `RankedSet` keeps the best
//! results seen so far, up to a fixed capacity.

use vstd::prelude::*;
use vstd::string::*;

verus! {

/// One matched line.
pub struct MatchResult {
    /// The raw line.
    pub line: String,
    /// How well the line matches; higher is better.
    pub score: i64,
    /// Byte offsets into the line of the matched bytes, ascending.
    pub indices: Vec<usize>,
    /// How many trailing characters are left out when the line is shown,
    /// if it does not fit the display.
    pub elided: Option<usize>,
}

/// The mathematical value of a `MatchResult`.
pub struct MatchView {
    pub line: Seq<char>,
    pub score: i64,
    pub indices: Seq<usize>,
    pub elided: Option<usize>,
}

impl View for MatchResult {
    type V = MatchView;

    open spec fn view(&self) -> MatchView {
        MatchView {
            line: self.line@,
            score: self.score,
            indices: self.indices@,
            elided: self.elided,
        }
    }
}

/// The values of a sequence of results.
pub open spec fn views(v: Seq<MatchResult>) -> Seq<MatchView> {
    v.map_values(|r: MatchResult| r@)
}

/// How many trailing characters of a line are left out on a display that
/// shows `width` characters; `None` when the line fits or no width is set.
pub open spec fn elided_for(line: Seq<char>, width: Option<usize>) -> Option<usize> {
    match width {
        Some(w) => if line.len() > w {
            Some((line.len() - w) as usize)
        } else {
            None
        },
        None => None,
    }
}

impl MatchResult {
    /// Makes the result for a line that matched with the given score at the
    /// given offsets, to be shown on a display of the given width.
    pub fn new(line: String, score: i64, indices: Vec<usize>, width: Option<usize>) -> (r: Self)
        ensures
            r@ == (MatchView {
                line: line@,
                score: score,
                indices: indices@,
                elided: elided_for(line@, width),
            }),
    {
        let chars = line.as_str().unicode_len();
        let elided = match width {
            Some(w) => if chars > w {
                Some(chars - w)
            } else {
                None
            },
            None => None,
        };
        MatchResult { line, score, indices, elided }
    }

    /// A copy of this result.
    pub fn duplicate(&self) -> (r: Self)
        ensures
            r@ == self@,
    {
        let mut indices: Vec<usize> = Vec::new();
        let mut i: usize = 0;
        while i < self.indices.len()
            invariant
                i <= self.indices.len(),
                indices@ == self.indices@.subrange(0, i as int),
            decreases self.indices.len() - i,
        {
            indices.push(self.indices[i]);
            assert(indices@ =~= self.indices@.subrange(0, i + 1));
            i += 1;
        }
        assert(indices@ =~= self.indices@);
        MatchResult { line: self.line.clone(), score: self.score, indices, elided: self.elided }
    }
}

/// The scores never rise along the sequence.
pub open spec fn sorted_desc(s: Seq<MatchView>) -> bool {
    forall|i: int, j: int| 0 <= i < j < s.len() ==> s[i].score >= s[j].score
}

/// Where a result with the given score enters a ranking: behind the last
/// entry whose score is at least as high.
pub open spec fn insert_point(s: Seq<MatchView>, score: i64) -> int
    decreases s.len(),
{
    if s.len() == 0 {
        0
    } else if s.last().score >= score {
        s.len() as int
    } else {
        insert_point(s.drop_last(), score)
    }
}

/// The ranking `s` with `x` entered.
pub open spec fn rank_insert(s: Seq<MatchView>, x: MatchView) -> Seq<MatchView> {
    s.insert(insert_point(s, x.score), x)
}

/// The results of `s` ranked: by score, best first, and among equal scores
/// in the order of `s`.
pub open spec fn ranked(s: Seq<MatchView>) -> Seq<MatchView>
    decreases s.len(),
{
    if s.len() == 0 {
        Seq::empty()
    } else {
        rank_insert(ranked(s.drop_last()), s.last())
    }
}

/// The first `n` entries of `s`, or all of `s` if it has fewer.
pub open spec fn keep(s: Seq<MatchView>, n: nat) -> Seq<MatchView> {
    if s.len() <= n {
        s
    } else {
        s.subrange(0, n as int)
    }
}

/// The best `n` results of `s`, ranked.
pub open spec fn top_n(s: Seq<MatchView>, n: nat) -> Seq<MatchView> {
    keep(ranked(s), n)
}

/// Only results of the given score.
pub open spec fn with_score(s: Seq<MatchView>, score: i64) -> Seq<MatchView> {
    s.filter(|e: MatchView| e.score == score)
}

/// The insert point lies within the ranking; from it on all scores are
/// lower, and right before it stands a score that is at least as high.
pub proof fn lemma_insert_point(s: Seq<MatchView>, score: i64)
    ensures
        0 <= insert_point(s, score) <= s.len(),
        forall|i: int| insert_point(s, score) <= i < s.len() ==> (#[trigger] s[i]).score < score,
        insert_point(s, score) > 0 ==> s[insert_point(s, score) - 1].score >= score,
    decreases s.len(),
{
    if s.len() == 0 {
    } else if s.last().score >= score {
    } else {
        lemma_insert_point(s.drop_last(), score);
        assert forall|i: int| insert_point(s, score) <= i < s.len() implies (#[trigger] s[i]).score
            < score by {
            if i < s.len() - 1 {
                assert(s[i] == s.drop_last()[i]);
            }
        }
    }
}

/// In a ranking, every entry before the insert point has a score that is at
/// least as high.
pub proof fn lemma_insert_point_sorted(s: Seq<MatchView>, score: i64)
    requires
        sorted_desc(s),
    ensures
        forall|i: int| 0 <= i < insert_point(s, score) ==> (#[trigger] s[i]).score >= score,
{
    lemma_insert_point(s, score);
}

/// A place behind a score that is at least as high, with only lower scores
/// from it on, is the insert point.
pub proof fn lemma_insert_point_is(s: Seq<MatchView>, score: i64, p: int)
    requires
        0 <= p <= s.len(),
        forall|i: int| p <= i < s.len() ==> (#[trigger] s[i]).score < score,
        p > 0 ==> s[p - 1].score >= score,
    ensures
        insert_point(s, score) == p,
    decreases s.len(),
{
    if s.len() == 0 {
    } else if s.last().score >= score {
        if p < s.len() {
            assert(s[s.len() - 1].score < score);
        }
    } else {
        lemma_insert_point_is(s.drop_last(), score, p);
    }
}

/// Entering a result into a ranking gives a ranking.
pub proof fn lemma_rank_insert_sorted(s: Seq<MatchView>, x: MatchView)
    requires
        sorted_desc(s),
    ensures
        sorted_desc(rank_insert(s, x)),
{
    lemma_insert_point(s, x.score);
    lemma_insert_point_sorted(s, x.score);
    let p = insert_point(s, x.score);
    let t = rank_insert(s, x);
    assert forall|i: int, j: int| 0 <= i < j < t.len() implies t[i].score >= t[j].score by {
        if j < p {
            assert(t[i] == s[i] && t[j] == s[j]);
        } else if j == p {
            assert(t[i] == s[i]);
        } else if i < p {
            assert(t[i] == s[i] && t[j] == s[j - 1]);
        } else if i == p {
            assert(t[j] == s[j - 1]);
        } else {
            assert(t[i] == s[i - 1] && t[j] == s[j - 1]);
        }
    }
}

/// Ranking gives a sequence whose scores never rise.
pub proof fn lemma_ranked_sorted(s: Seq<MatchView>)
    ensures
        sorted_desc(ranked(s)),
        ranked(s).len() == s.len(),
    decreases s.len(),
{
    if s.len() > 0 {
        lemma_ranked_sorted(s.drop_last());
        lemma_rank_insert_sorted(ranked(s.drop_last()), s.last());
        lemma_insert_point(ranked(s.drop_last()), s.last().score);
    }
}

/// Ranking neither loses nor invents a result.
pub proof fn lemma_ranked_permutes(s: Seq<MatchView>)
    ensures
        ranked(s).to_multiset() == s.to_multiset(),
    decreases s.len(),
{
    broadcast use vstd::seq_lib::to_multiset_insert, vstd::seq_lib::to_multiset_build;

    if s.len() == 0 {
        assert(s =~= Seq::empty());
    } else {
        let r = ranked(s.drop_last());
        lemma_ranked_permutes(s.drop_last());
        lemma_insert_point(r, s.last().score);
        assert(s =~= s.drop_last().push(s.last()));
        assert(ranked(s).to_multiset() =~= r.to_multiset().insert(s.last()));
        assert(s.to_multiset() =~= s.drop_last().to_multiset().insert(s.last()));
    }
}

/// Ranking is stable: the results of any one score stand in the ranking in
/// the order in which they stand in `s`.
pub proof fn lemma_ranked_stable(s: Seq<MatchView>, score: i64)
    ensures
        with_score(ranked(s), score) == with_score(s, score),
    decreases s.len(),
{
    let pred = |e: MatchView| e.score == score;
    if s.len() == 0 {
    } else {
        let init = s.drop_last();
        let x = s.last();
        let r = ranked(init);
        let p = insert_point(r, x.score);
        lemma_ranked_stable(init, score);
        lemma_insert_point(r, x.score);
        let front = r.subrange(0, p);
        let back = r.subrange(p, r.len() as int);
        assert(r =~= front + back);
        assert(ranked(s) =~= front.push(x) + back);
        Seq::filter_distributes_over_add(front, back, pred);
        Seq::filter_distributes_over_add(front.push(x), back, pred);
        Seq::lemma_filter_push(front, x, pred);
        Seq::lemma_filter_push(init, x, pred);
        assert(s =~= init.push(x));
        if x.score == score {
            assert forall|i: int| 0 <= i < back.len() implies !pred(#[trigger] back[i]) by {
                assert(back[i] == r[p + i]);
            }
            back.lemma_all_neg_filter_empty(pred);
            assert(back.filter(pred) =~= Seq::empty());
            assert(with_score(ranked(s), score) =~= front.filter(pred).push(x));
            assert(with_score(r, score) =~= front.filter(pred));
        } else {
            assert(with_score(ranked(s), score) =~= front.filter(pred) + back.filter(pred));
        }
    }
}

/// `r` ranks the results of `s`: its scores never rise, and for every
/// score it holds exactly the results of `s` with that score, in the order
/// in which they stand in `s`.
pub open spec fn is_ranking_of(r: Seq<MatchView>, s: Seq<MatchView>) -> bool {
    &&& sorted_desc(r)
    &&& forall|score: i64| #[trigger] with_score(r, score) == with_score(s, score)
}

/// A sequence that holds a result of some score has results of that score.
pub proof fn lemma_with_score_holds(r: Seq<MatchView>, k: int)
    requires
        0 <= k < r.len(),
    ensures
        with_score(r, r[k].score).len() > 0,
{
    let score = r[k].score;
    let pred = |e: MatchView| e.score == score;
    let front = r.subrange(0, k);
    let back = r.subrange(k + 1, r.len() as int);
    assert(r =~= front.push(r[k]) + back);
    Seq::filter_distributes_over_add(front.push(r[k]), back, pred);
    Seq::lemma_filter_push(front, r[k], pred);
}

/// There is only one way to rank a sequence: whatever ranks the results
/// of `s` is `ranked(s)`.
pub proof fn lemma_ranking_is_unique(r: Seq<MatchView>, s: Seq<MatchView>)
    requires
        is_ranking_of(r, s),
    ensures
        r == ranked(s),
    decreases s.len(),
{
    if s.len() == 0 {
        if r.len() > 0 {
            lemma_with_score_holds(r, 0);
            assert(with_score(r, r[0].score) == with_score(s, r[0].score));
            assert(s.filter(|e: MatchView| e.score == r[0].score) =~= Seq::empty()) by {
                s.lemma_all_neg_filter_empty(|e: MatchView| e.score == r[0].score);
            }
        }
        assert(r =~= Seq::empty());
    } else {
        let init = s.drop_last();
        let x = s.last();
        let score = x.score;
        let pred = |e: MatchView| e.score == score;
        assert(s =~= init.push(x));
        Seq::lemma_filter_push(init, x, pred);
        assert(with_score(r, score) == with_score(s, score));
        assert(with_score(s, score) == with_score(init, score).push(x));
        // Some result of `r` has the score of `x`.
        if forall|k: int| 0 <= k < r.len() ==> !pred(#[trigger] r[k]) {
            r.lemma_all_neg_filter_empty(pred);
        }
        let k = choose|k: int| 0 <= k < r.len() && pred(#[trigger] r[k]);
        // The last result of that score stands right before the insert point.
        let p = insert_point(r, score);
        lemma_insert_point(r, score);
        assert(k < p);
        let q = p - 1;
        assert(r[q].score >= r[k].score || q == k || r[q].score == score) by {
            if k < q {
                assert(r[k].score >= r[q].score);
            }
        }
        assert(r[q].score == score);
        let front = r.subrange(0, q);
        let back = r.subrange(p, r.len() as int);
        let rest = front + back;
        assert(r =~= front.push(r[q]) + back);
        assert forall|i: int| 0 <= i < back.len() implies !pred(#[trigger] back[i]) by {
            assert(back[i] == r[p + i]);
        }
        back.lemma_all_neg_filter_empty(pred);
        assert(back.filter(pred) =~= Seq::empty());
        Seq::filter_distributes_over_add(front.push(r[q]), back, pred);
        Seq::lemma_filter_push(front, r[q], pred);
        assert(with_score(r, score) =~= front.filter(pred).push(r[q]));
        assert(front.filter(pred).push(r[q]).last() == with_score(init, score).push(x).last());
        assert(r[q] == x);
        assert(front.filter(pred) =~= front.filter(pred).push(r[q]).drop_last());
        assert(with_score(init, score) =~= with_score(init, score).push(x).drop_last());
        // Without `x`, what is left ranks the results before `x`.
        assert forall|i: int, j: int| 0 <= i < j < rest.len() implies rest[i].score
            >= rest[j].score by {
            let from_i = if i < q {
                i
            } else {
                i + 1
            };
            let from_j = if j < q {
                j
            } else {
                j + 1
            };
            assert(rest[i] == r[from_i] && rest[j] == r[from_j]);
        }
        assert forall|other: i64| #[trigger] with_score(rest, other) == with_score(init, other) by {
            let same = |e: MatchView| e.score == other;
            Seq::filter_distributes_over_add(front, back, same);
            if other == score {
                assert(same =~= pred);
                assert(with_score(rest, other) =~= front.filter(pred));
            } else {
                Seq::filter_distributes_over_add(front.push(r[q]), back, same);
                Seq::lemma_filter_push(front, r[q], same);
                Seq::lemma_filter_push(init, x, same);
                assert(with_score(r, other) == with_score(s, other));
            }
        }
        lemma_ranking_is_unique(rest, init);
        assert forall|i: int| q <= i < rest.len() implies (#[trigger] rest[i]).score < score by {
            assert(rest[i] == r[i + 1]);
        }
        if q > 0 {
            assert(rest[q - 1] == r[q - 1]);
            assert(r[q - 1].score >= r[q].score);
        }
        lemma_insert_point_is(rest, score, q);
        assert(rank_insert(rest, x) =~= r);
    }
}

/// What `ranked` gives ranks its argument.
pub proof fn lemma_ranked_is_ranking(s: Seq<MatchView>)
    ensures
        is_ranking_of(ranked(s), s),
{
    lemma_ranked_sorted(s);
    assert forall|score: i64| #[trigger] with_score(ranked(s), score) == with_score(s, score) by {
        lemma_ranked_stable(s, score);
    }
}

/// Cutting a ranking to its best `n` before a result enters changes
/// nothing among the best `n` afterwards.
pub proof fn lemma_keep_rank_insert(r: Seq<MatchView>, x: MatchView, n: nat)
    requires
        sorted_desc(r),
    ensures
        keep(rank_insert(r, x), n) == keep(rank_insert(keep(r, n), x), n),
{
    if r.len() <= n {
    } else {
        let p = insert_point(r, x.score);
        let cut = keep(r, n);
        lemma_insert_point(r, x.score);
        lemma_insert_point_sorted(r, x.score);
        if p < n {
            assert forall|i: int| p <= i < cut.len() implies (#[trigger] cut[i]).score
                < x.score by {
                assert(cut[i] == r[i]);
            }
            lemma_insert_point_is(cut, x.score, p);
            assert(keep(rank_insert(r, x), n) =~= keep(rank_insert(cut, x), n));
        } else {
            assert(n > 0 ==> cut[n - 1] == r[n - 1]);
            lemma_insert_point_is(cut, x.score, n as int);
            assert(keep(rank_insert(r, x), n) =~= keep(rank_insert(cut, x), n));
        }
    }
}

/// The best `n` of a sequence with one more result are the best `n` of:
/// the best `n` so far, with the new result entered.
pub proof fn lemma_top_n_push(s: Seq<MatchView>, x: MatchView, n: nat)
    ensures
        top_n(s.push(x), n) == keep(rank_insert(top_n(s, n), x), n),
{
    lemma_ranked_sorted(s);
    assert(s.push(x).drop_last() =~= s);
    lemma_keep_rank_insert(ranked(s), x, n);
}

/// A ranking only tightens when a result enters: at every rank that was
/// held before, the score afterwards is at least what it was.
pub proof fn lemma_rank_insert_tightens(s: Seq<MatchView>, x: MatchView, n: nat, i: int)
    requires
        sorted_desc(s),
        s.len() <= n,
        0 <= i < s.len(),
    ensures
        i < keep(rank_insert(s, x), n).len(),
        keep(rank_insert(s, x), n)[i].score >= s[i].score,
{
    lemma_insert_point(s, x.score);
    let p = insert_point(s, x.score);
    let t = rank_insert(s, x);
    if i < p {
        assert(t[i] == s[i]);
    } else if i == p {
        assert(t[i] == x);
    } else {
        assert(t[i] == s[i - 1]);
    }
}

/// The best `n` of any sequence are at most `n`, at most as many as the
/// sequence has, and stand with never-rising scores.
pub proof fn lemma_top_n(s: Seq<MatchView>, n: nat)
    ensures
        top_n(s, n).len() <= n,
        top_n(s, n).len() <= s.len(),
        top_n(s, n).len() == if s.len() <= n {
            s.len()
        } else {
            n
        },
        sorted_desc(top_n(s, n)),
{
    lemma_ranked_sorted(s);
    let r = ranked(s);
    let t = top_n(s, n);
    assert forall|i: int, j: int| 0 <= i < j < t.len() implies t[i].score >= t[j].score by {
        assert(t[i] == r[i] && t[j] == r[j]);
    }
}

/// Two rankings merged into one: by score, best first, and among equal
/// scores the entries of `a` before those of `b`.
pub open spec fn merged(a: Seq<MatchView>, b: Seq<MatchView>) -> Seq<MatchView>
    decreases a.len() + b.len(),
{
    if a.len() == 0 {
        b
    } else if b.len() == 0 {
        a
    } else if a.last().score >= b.last().score {
        merged(a, b.drop_last()).push(b.last())
    } else {
        merged(a.drop_last(), b).push(a.last())
    }
}

/// A result enters a ranking behind a last entry that scores at least as
/// high, and before a last entry that scores lower.
pub proof fn lemma_rank_insert_push(m: Seq<MatchView>, y: MatchView, x: MatchView)
    ensures
        rank_insert(m.push(y), x) == if y.score >= x.score {
            m.push(y).push(x)
        } else {
            rank_insert(m, x).push(y)
        },
{
    assert(m.push(y).drop_last() =~= m);
    lemma_insert_point(m, x.score);
    if y.score >= x.score {
        assert(rank_insert(m.push(y), x) =~= m.push(y).push(x));
    } else {
        assert(rank_insert(m.push(y), x) =~= rank_insert(m, x).push(y));
    }
}

/// Entering a result into the second of two rankings and merging them
/// gives what merging them and entering the result gives.
pub proof fn lemma_merged_rank_insert(a: Seq<MatchView>, b: Seq<MatchView>, x: MatchView)
    ensures
        merged(a, rank_insert(b, x)) == rank_insert(merged(a, b), x),
    decreases a.len() + b.len(),
{
    if a.len() == 0 {
    } else if b.len() == 0 {
        let rest = a.drop_last();
        assert(rank_insert(b, x) =~= Seq::<MatchView>::empty().push(x));
        assert(Seq::<MatchView>::empty().push(x).drop_last() =~= b);
        assert(a =~= rest.push(a.last()));
        lemma_rank_insert_push(rest, a.last(), x);
        if a.last().score < x.score {
            lemma_merged_rank_insert(rest, b, x);
            assert(merged(rest, b) == rest);
        }
    } else {
        let rest = a.drop_last();
        let shorter = b.drop_last();
        assert(b =~= shorter.push(b.last()));
        lemma_rank_insert_push(shorter, b.last(), x);
        if b.last().score >= x.score {
            assert(b.push(x).drop_last() =~= b);
            if a.last().score >= x.score {
                if a.last().score >= b.last().score {
                    lemma_rank_insert_push(merged(a, shorter), b.last(), x);
                } else {
                    lemma_rank_insert_push(merged(rest, b), a.last(), x);
                }
            } else {
                lemma_merged_rank_insert(rest, b, x);
                lemma_rank_insert_push(merged(rest, b), a.last(), x);
            }
        } else {
            assert(rank_insert(shorter, x).push(b.last()).drop_last() =~= rank_insert(shorter, x));
            if a.last().score >= b.last().score {
                lemma_merged_rank_insert(a, shorter, x);
                lemma_rank_insert_push(merged(a, shorter), b.last(), x);
            } else {
                lemma_merged_rank_insert(rest, b, x);
                lemma_rank_insert_push(merged(rest, b), a.last(), x);
            }
        }
    }
}

/// Ranking two sequences and merging the rankings gives the ranking of the
/// two sequences put together.
pub proof fn lemma_merged_ranked(a: Seq<MatchView>, b: Seq<MatchView>)
    ensures
        merged(ranked(a), ranked(b)) == ranked(a + b),
    decreases b.len(),
{
    if b.len() == 0 {
        assert(a + b =~= a);
        assert(merged(ranked(a), ranked(b)) == ranked(a));
    } else {
        lemma_merged_ranked(a, b.drop_last());
        lemma_merged_rank_insert(ranked(a), ranked(b.drop_last()), b.last());
        assert((a + b).drop_last() =~= a + b.drop_last());
        assert((a + b).last() == b.last());
    }
}

/// Merges two rankings into one.
pub fn merge(a: Vec<MatchResult>, b: Vec<MatchResult>) -> (r: Vec<MatchResult>)
    ensures
        views(r@) == merged(views(a@), views(b@)),
{
    let ghost whole = merged(views(a@), views(b@));
    let mut a = a;
    let mut b = b;
    // The worst results come off first, so they are collected back to front.
    let mut behind: Vec<MatchResult> = Vec::new();
    assert(whole =~= merged(views(a@), views(b@)) + views(behind@).reverse());
    while a.len() > 0 && b.len() > 0
        invariant
            whole == merged(views(a@), views(b@)) + views(behind@).reverse(),
        decreases a@.len() + b@.len(),
    {
        let ghost a0 = views(a@);
        let ghost b0 = views(b@);
        let ghost done = views(behind@);
        let from_b = a[a.len() - 1].score >= b[b.len() - 1].score;
        let worst = if from_b {
            b.pop()
        } else {
            a.pop()
        };
        match worst {
            Some(m) => {
                proof {
                    if from_b {
                        assert(views(b@) =~= b0.drop_last());
                        assert(views(a@) == a0);
                        assert(m@ == b0.last());
                    } else {
                        assert(views(a@) =~= a0.drop_last());
                        assert(views(b@) == b0);
                        assert(m@ == a0.last());
                    }
                }
                behind.push(m);
                assert(views(behind@).reverse() =~= seq![m@] + done.reverse());
                assert(whole =~= merged(views(a@), views(b@)) + views(behind@).reverse());
            },
            None => {},
        }
    }
    let mut out = if a.len() == 0 {
        b
    } else {
        a
    };
    while behind.len() > 0
        invariant
            whole == views(out@) + views(behind@).reverse(),
        decreases behind@.len(),
    {
        let ghost done = views(behind@);
        match behind.pop() {
            Some(m) => {
                assert(views(behind@) =~= done.drop_last());
                assert(m@ == done.last());
                out.push(m);
                assert(done.reverse() =~= seq![m@] + views(behind@).reverse());
                assert(whole =~= views(out@) + views(behind@).reverse());
            },
            None => {},
        }
    }
    assert(views(behind@).reverse() =~= Seq::<MatchView>::empty());
    assert(whole =~= views(out@));
    out
}

/// Ranks results: by score, best first, and among equal scores in the
/// order in which they stand.
pub fn sort_results(results: Vec<MatchResult>) -> (r: Vec<MatchResult>)
    ensures
        views(r@) == ranked(views(results@)),
    decreases results@.len(),
{
    let n = results.len();
    let ghost all = views(results@);
    if n <= 1 {
        proof {
            if n == 1 {
                assert(all.drop_last() =~= Seq::<MatchView>::empty());
                assert(ranked(all.drop_last()) =~= Seq::<MatchView>::empty());
                assert(insert_point(Seq::<MatchView>::empty(), all.last().score) == 0);
                assert(ranked(all) =~= all);
            } else {
                assert(ranked(all) =~= all);
            }
        }
        return results;
    }
    let mut head = results;
    let tail = head.split_off(n / 2);
    proof {
        assert(all =~= views(head@) + views(tail@));
        lemma_merged_ranked(views(head@), views(tail@));
    }
    let left = sort_results(head);
    let right = sort_results(tail);
    merge(left, right)
}

/// Bounded collection of the best results seen so far.
pub struct RankedSet {
    cap: usize,
    kept: Vec<MatchResult>,
    seen: Ghost<Seq<MatchView>>,
}

impl View for RankedSet {
    type V = Seq<MatchView>;

    /// The results that the set holds, best first.
    closed spec fn view(&self) -> Seq<MatchView> {
        views(self.kept@)
    }
}

impl RankedSet {
    /// The greatest number of results that the set holds.
    pub closed spec fn capacity(&self) -> nat {
        self.cap as nat
    }

    /// Every result that was offered to the set, in the order of arrival.
    pub closed spec fn seen(&self) -> Seq<MatchView> {
        self.seen@
    }

    /// The set holds the best results of all that were offered, as many as
    /// its capacity allows.
    pub open spec fn wf(&self) -> bool {
        self@ == top_n(self.seen(), self.capacity())
    }

    /// An empty set that will hold at most `cap` results.
    pub fn new(cap: usize) -> (r: Self)
        ensures
            r.wf(),
            r.capacity() == cap,
            r.seen() == Seq::<MatchView>::empty(),
            r@ == Seq::<MatchView>::empty(),
    {
        let r = RankedSet { cap, kept: Vec::new(), seen: Ghost(Seq::empty()) };
        assert(r@ =~= Seq::<MatchView>::empty());
        r
    }

    /// The number of results held.
    pub fn len(&self) -> (n: usize)
        ensures
            n == self@.len(),
    {
        self.kept.len()
    }

    /// The capacity that the set was made with.
    pub fn cap(&self) -> (n: usize)
        ensures
            n == self.capacity(),
    {
        self.cap
    }

    /// The result at rank `i`, where rank 0 is the best.
    pub fn get(&self, i: usize) -> (r: &MatchResult)
        requires
            i < self@.len(),
        ensures
            r@ == self@[i as int],
    {
        &self.kept[i]
    }

    /// The results held, best first.
    pub fn results(&self) -> (r: &Vec<MatchResult>)
        ensures
            views(r@) == self@,
    {
        &self.kept
    }

    /// Gives up the set for the results it holds, best first.
    pub fn into_results(self) -> (r: Vec<MatchResult>)
        ensures
            views(r@) == self@,
    {
        self.kept
    }

    /// The place at which a result with this score enters the results held.
    fn find_insert_point(&self, score: i64) -> (p: usize)
        requires
            sorted_desc(self@),
        ensures
            p == insert_point(self@, score),
    {
        let mut lo: usize = 0;
        let mut hi: usize = self.kept.len();
        while lo < hi
            invariant
                lo <= hi <= self.kept@.len(),
                sorted_desc(self@),
                self@.len() == self.kept@.len(),
                forall|i: int| 0 <= i < lo ==> (#[trigger] self@[i]).score >= score,
                forall|i: int| hi <= i < self@.len() ==> (#[trigger] self@[i]).score < score,
            decreases hi - lo,
        {
            let mid = lo + (hi - lo) / 2;
            assert(self@[mid as int] == self.kept@[mid as int]@);
            if self.kept[mid].score >= score {
                assert forall|i: int| 0 <= i < mid + 1 implies (#[trigger] self@[i]).score
                    >= score by {
                    if i < mid {
                        assert(self@[i].score >= self@[mid as int].score);
                    }
                }
                lo = mid + 1;
            } else {
                assert forall|i: int| mid <= i < self@.len() implies (#[trigger] self@[i]).score
                    < score by {
                    if i > mid {
                        assert(self@[mid as int].score >= self@[i].score);
                    }
                }
                hi = mid;
            }
        }
        proof {
            lemma_insert_point_is(self@, score, lo as int);
        }
        lo
    }

    /// Offers a result to the set. It is kept if the set is not full or if
    /// it beats the worst result held, which then leaves; a result that
    /// only equals the worst one of a full set is not kept. Returns whether
    /// the result was kept.
    pub fn offer(&mut self, item: MatchResult) -> (accepted: bool)
        requires
            old(self).wf(),
        ensures
            final(self).wf(),
            final(self).capacity() == old(self).capacity(),
            final(self).seen() == old(self).seen().push(item@),
            final(self)@ == keep(rank_insert(old(self)@, item@), old(self).capacity()),
            accepted == (insert_point(old(self)@, item.score) < old(self).capacity()),
            !accepted ==> final(self)@ == old(self)@,
    {
        proof {
            lemma_top_n(self.seen@, self.cap as nat);
            lemma_top_n_push(self.seen@, item@, self.cap as nat);
            lemma_insert_point(self@, item.score);
        }
        let ghost before = self@;
        let ghost entry = item@;
        let p = self.find_insert_point(item.score);
        self.seen = Ghost(self.seen@.push(entry));
        if p >= self.cap {
            assert(keep(rank_insert(before, entry), self.cap as nat) =~= before);
            return false;
        }
        self.kept.insert(p, item);
        assert(views(self.kept@) =~= rank_insert(before, entry));
        if self.kept.len() > self.cap {
            self.kept.truncate(self.cap);
        }
        assert(views(self.kept@) =~= keep(rank_insert(before, entry), self.cap as nat));
        true
    }
}

/// A set in order never holds more than its capacity, and it holds
/// exactly the best of what was offered: the first entries, as many as the
/// capacity allows, of the one ranking of all results offered, which has
/// every result offered once, scores that never rise, and results of equal
/// score in their order of arrival.
pub proof fn lemma_ranked_set(set: RankedSet)
    requires
        set.wf(),
    ensures
        set@.len() <= set.capacity(),
        set@.len() <= set.seen().len(),
        sorted_desc(set@),
        set@ == keep(ranked(set.seen()), set.capacity()),
        is_ranking_of(ranked(set.seen()), set.seen()),
        ranked(set.seen()).to_multiset() == set.seen().to_multiset(),
{
    lemma_top_n(set.seen(), set.capacity());
    lemma_ranked_permutes(set.seen());
    lemma_ranked_is_ranking(set.seen());
}

} // verus!
