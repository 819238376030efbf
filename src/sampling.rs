//! Frequency weights of a successor list and a weighted random draw over them.
use vstd::prelude::*;
use crate::tokenizer::views;

verus! {

/// The distinct values of `s`, in order of first occurrence.
pub open spec fn distinct(s: Seq<Seq<char>>) -> Seq<Seq<char>>
    decreases s.len(),
{
    if s.len() == 0 {
        seq![]
    } else {
        let d = distinct(s.drop_last());
        if d.contains(s.last()) {
            d
        } else {
            d.push(s.last())
        }
    }
}

/// How many times `x` occurs in `s`.
pub open spec fn occurrences(s: Seq<Seq<char>>, x: Seq<char>) -> nat
    decreases s.len(),
{
    if s.len() == 0 {
        0
    } else {
        occurrences(s.drop_last(), x) + if s.last() == x {
            1nat
        } else {
            0nat
        }
    }
}

/// The sum of a list of weights.
pub open spec fn total(w: Seq<usize>) -> int
    decreases w.len(),
{
    if w.len() == 0 {
        0
    } else {
        total(w.drop_last()) + w.last()
    }
}

/// No value appears twice among the distinct values, and each of them comes
/// from the sequence.
pub proof fn lemma_distinct(s: Seq<Seq<char>>)
    ensures
        forall|a: int, b: int|
            0 <= a < b < distinct(s).len() ==> distinct(s)[a] != distinct(s)[b],
        forall|a: int| 0 <= a < distinct(s).len() ==> s.contains(#[trigger] distinct(s)[a]),
        forall|x: Seq<char>| occurrences(s, x) > 0 ==> #[trigger] distinct(s).contains(x),
    decreases s.len(),
{
    if s.len() > 0 {
        let p = s.drop_last();
        lemma_distinct(p);
        let d = distinct(p);
        assert forall|a: int| 0 <= a < distinct(s).len() implies s.contains(
            #[trigger] distinct(s)[a],
        ) by {
            if a < d.len() {
                assert(p.contains(d[a]));
                let j = choose|j: int| 0 <= j < p.len() && p[j] == d[a];
                assert(s[j] == d[a]);
            } else {
                assert(s[s.len() - 1] == s.last());
            }
        }
        assert forall|x: Seq<char>| occurrences(s, x) > 0 implies #[trigger] distinct(
            s,
        ).contains(x) by {
            if occurrences(p, x) > 0 {
                assert(d.contains(x));
                let j = choose|j: int| 0 <= j < d.len() && d[j] == x;
                assert(distinct(s)[j] == x);
            } else if !d.contains(s.last()) {
                assert(distinct(s)[d.len() as int] == x);
            }
        }
    }
}

/// A value that occurs in a sequence is counted there.
pub proof fn lemma_occurs(s: Seq<Seq<char>>, x: Seq<char>)
    requires
        s.contains(x),
    ensures
        occurrences(s, x) > 0,
    decreases s.len(),
{
    if s.last() != x {
        let j = choose|j: int| 0 <= j < s.len() && s[j] == x;
        assert(s.drop_last()[j] == x);
        lemma_occurs(s.drop_last(), x);
    }
}

/// Draws an index of `weights` at random.
/// Relies on `rand::distr::weighted::WeightedIndex::new`, which accepts a
/// non-empty list of weights whose sum is positive and fits in `usize`, and on
/// its `Distribution::sample` with the thread-local generator of `rand::rng`,
/// which returns an index of the list, each with probability proportional to
/// its weight.
#[verifier::external_body]
fn weighted_index(weights: &Vec<usize>) -> (r: usize)
    requires
        weights@.len() > 0,
        forall|j: int| 0 <= j < weights@.len() ==> weights@[j] > 0,
        total(weights@) <= usize::MAX,
    ensures
        r < weights@.len(),
{
    let dist = rand::distr::weighted::WeightedIndex::new(weights).unwrap();
    rand::distr::Distribution::sample(&dist, &mut rand::rng())
}

/// Draws one of the values of `ts` at random, each distinct value with
/// probability proportional to the number of times it occurs.
pub fn draw_weighted(ts: &Vec<String>) -> (r: String)
    requires
        ts@.len() > 0,
    ensures
        views(ts@).contains(r@),
{
    let ghost s = views(ts@);
    let n = ts.len();
    let (values, weights) = successor_weights(ts);
    proof {
        lemma_distinct(s);
        assert(s.drop_last().len() < s.len());
        assert(distinct(s).len() > 0);
        assert forall|j: int| 0 <= j < weights@.len() implies weights@[j] > 0 by {
            assert(views(values@)[j] == values@[j]@);
            assert(s.contains(distinct(s)[j]));
            lemma_occurs(s, values@[j]@);
        }
    }
    let k = weighted_index(&weights);
    proof {
        assert(views(values@)[k as int] == values@[k as int]@);
        assert(s.contains(distinct(s)[k as int]));
    }
    values[k].clone()
}

/// Raising one weight by one raises the sum by one; every weight is at most
/// the sum.
proof fn lemma_total_update(w: Seq<usize>, j: int, v: usize)
    requires
        0 <= j < w.len(),
    ensures
        total(w.update(j, v)) == total(w) - w[j] + v,
        w[j] <= total(w),
    decreases w.len(),
{
    lemma_total_nonneg(w.drop_last());
    if j == w.len() - 1 {
        assert(w.update(j, v).drop_last() == w.drop_last());
    } else {
        lemma_total_update(w.drop_last(), j, v);
        assert(w.update(j, v).drop_last() == w.drop_last().update(j, v));
    }
}

proof fn lemma_total_nonneg(w: Seq<usize>)
    ensures
        total(w) >= 0,
    decreases w.len(),
{
    if w.len() > 0 {
        lemma_total_nonneg(w.drop_last());
    }
}

/// The distinct successors in `ts`, in order of first occurrence, and the
/// weight of each: the number of times it occurs in `ts`.
pub fn successor_weights(ts: &Vec<String>) -> (r: (Vec<String>, Vec<usize>))
    ensures
        views(r.0@) == distinct(views(ts@)),
        r.1@.len() == r.0@.len(),
        forall|j: int|
            0 <= j < r.1@.len() ==> r.1@[j] == occurrences(views(ts@), #[trigger] r.0@[j]@),
        total(r.1@) == ts@.len(),
{
    let ghost s = views(ts@);
    let mut values: Vec<String> = Vec::new();
    let mut weights: Vec<usize> = Vec::new();
    let n = ts.len();
    let mut i: usize = 0;
    assert(views(values@) =~= distinct(s.take(0)));
    while i < n
        invariant
            n == ts@.len(),
            s == views(ts@),
            i <= n,
            views(values@) == distinct(s.take(i as int)),
            weights@.len() == values@.len(),
            forall|j: int|
                0 <= j < weights@.len() ==> weights@[j] == occurrences(
                    s.take(i as int),
                    #[trigger] values@[j]@,
                ),
            total(weights@) == i,
        decreases n - i,
    {
        let t = &ts[i];
        let ghost p = s.take(i as int);
        let ghost q = s.take(i + 1);
        proof {
            assert(q.drop_last() == p);
            assert(q.last() == t@);
            lemma_distinct(p);
        }
        let mut j: usize = 0;
        let mut found = false;
        while j < values.len()
            invariant
                j <= values@.len(),
                forall|a: int| 0 <= a < j ==> values@[a]@ != t@,
                found ==> j < values@.len() && values@[j as int]@ == t@,
            ensures
                found ==> j < values@.len() && values@[j as int]@ == t@,
                !found ==> forall|a: int| 0 <= a < values@.len() ==> values@[a]@ != t@,
            decreases values@.len() - j + if found { 0int } else { 1int },
        {
            if values[j] == *t {
                found = true;
                break;
            }
            j = j + 1;
        }
        let ghost w0 = weights@;
        if found {
            proof {
                lemma_total_update(w0, j as int, w0[j as int]);
                assert(views(values@)[j as int] == t@);
                assert(distinct(p).contains(t@));
                assert(distinct(q) == distinct(p));
            }
            let w = weights[j] + 1;
            weights.set(j, w);
            proof {
                lemma_total_update(w0, j as int, w);
                assert forall|a: int| 0 <= a < weights@.len() implies weights@[a] == occurrences(
                    q,
                    #[trigger] values@[a]@,
                ) by {
                    assert(views(values@)[a] == values@[a]@);
                    if a != j {
                        assert(distinct(p)[a] != distinct(p)[j as int]);
                    }
                }
            }
        } else {
            proof {
                assert(!distinct(p).contains(t@)) by {
                    if distinct(p).contains(t@) {
                        let a = choose|a: int| 0 <= a < distinct(p).len() && distinct(p)[a] == t@;
                        assert(views(values@)[a] == values@[a]@);
                    }
                }
                assert(occurrences(p, t@) == 0);
                assert(distinct(q) == distinct(p).push(t@));
            }
            values.push(t.clone());
            weights.push(1);
            proof {
                assert(views(values@) =~= distinct(p).push(t@));
                assert(weights@.drop_last() == w0);
                assert forall|a: int| 0 <= a < weights@.len() implies weights@[a] == occurrences(
                    q,
                    #[trigger] values@[a]@,
                ) by {
                    if a < w0.len() {
                        assert(values@[a]@ != t@);
                    }
                }
            }
        }
        i = i + 1;
    }
    assert(s.take(n as int) == s);
    (values, weights)
}

} // verus!
