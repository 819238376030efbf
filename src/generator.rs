//! Weighted random walks over the transition table, with a restart from a
//! sentence boundary whenever a walk reaches a token with no way forward.
use vstd::prelude::*;
use vstd::string::StringExecFns;
use crate::chain::{MarkovChain, Successor};
use crate::tokenizer::views;

verus! {

/// The token a walk restarts from: the full-width period, a sentence boundary.
pub const FALLBACK_SEED: &'static str = "。";

/// The number of steps of a walk after a restart.
pub const FALLBACK_LENGTH: usize = 20;

/// How many restarts one generation may make before it gives up.
pub const MAX_RESTARTS: usize = 1000;

/// Each token of `p` but the last has a record in `m` that lists the next.
pub open spec fn is_walk(m: Map<Seq<char>, Seq<Seq<char>>>, p: Seq<Seq<char>>) -> bool {
    forall|i: int|
        0 <= i < p.len() - 1 ==> m.contains_key(#[trigger] p[i]) && m[p[i]].contains(p[i + 1])
}

/// Every walk of `n` steps from `t` only meets tokens that have successors,
/// so no draw along it can reach a dead end.
pub open spec fn walks_on(m: Map<Seq<char>, Seq<Seq<char>>>, t: Seq<char>, n: nat) -> bool
    decreases n,
{
    if n == 0 {
        true
    } else {
        &&& m.contains_key(t)
        &&& m[t].len() > 0
        &&& forall|u: Seq<char>| #[trigger] m[t].contains(u) ==> walks_on(m, u, (n - 1) as nat)
    }
}

/// A finished generation for `seed` and `length`: a walk of `length` steps
/// from the seed, or, after a restart, a walk of the fallback length from the
/// fallback seed.
pub open spec fn is_generation(
    m: Map<Seq<char>, Seq<Seq<char>>>,
    seed: Seq<char>,
    length: nat,
    p: Seq<Seq<char>>,
) -> bool {
    &&& is_walk(m, p)
    &&& {
        ||| p.len() == length + 1 && p[0] == seed
        ||| p.len() == FALLBACK_LENGTH + 1 && p[0] == FALLBACK_SEED@
    }
}

/// A seed without a record cannot take a step: every generation of positive
/// length from it is a walk from the fallback seed, of the fallback length.
pub proof fn lemma_unknown_seed_restarts(
    m: Map<Seq<char>, Seq<Seq<char>>>,
    seed: Seq<char>,
    length: nat,
    p: Seq<Seq<char>>,
)
    requires
        !m.contains_key(seed),
        length > 0,
        is_generation(m, seed, length, p),
    ensures
        p.len() == FALLBACK_LENGTH + 1,
        p[0] == FALLBACK_SEED@,
{
    if p.len() == length + 1 && p[0] == seed {
        assert(m.contains_key(p[0]));
    }
}

/// The tokens of `p` separated by single spaces.
pub open spec fn joined(p: Seq<Seq<char>>) -> Seq<char>
    decreases p.len(),
{
    if p.len() == 0 {
        seq![]
    } else if p.len() == 1 {
        p[0]
    } else {
        joined(p.drop_last()) + seq![' '] + p.last()
    }
}

/// A walk in progress: the tokens so far, the steps still to take, and the
/// restarts made.
pub struct Walk {
    pub tokens: Vec<String>,
    pub remaining: usize,
    pub restarts: usize,
}

impl Walk {
    /// A walk that stands on `seed` and has `length` steps to take.
    pub fn start(seed: &str, length: usize) -> (r: Walk)
        ensures
            views(r.tokens@) == seq![seed@],
            r.remaining == length,
            r.restarts == 0,
    {
        let tokens = vec![seed.to_owned()];
        assert(views(tokens@) =~= seq![seed@]);
        Walk { tokens, remaining: length, restarts: 0 }
    }

    /// One step: a drawn successor is appended; a dead end, unknown or
    /// terminal, discards the walk and starts over from the fallback seed.
    pub fn advance(self, outcome: Successor) -> (r: Walk)
        requires
            self.remaining > 0,
            self.restarts < usize::MAX,
        ensures
            outcome matches Successor::Next(t) ==> {
                &&& views(r.tokens@) == views(self.tokens@).push(t@)
                &&& r.remaining == self.remaining - 1
                &&& r.restarts == self.restarts
            },
            !(outcome is Next) ==> {
                &&& views(r.tokens@) == seq![FALLBACK_SEED@]
                &&& r.remaining == FALLBACK_LENGTH
                &&& r.restarts == self.restarts + 1
            },
    {
        match outcome {
            Successor::Next(t) => {
                let mut tokens = self.tokens;
                let ghost before = tokens@;
                let ghost tv = t@;
                tokens.push(t);
                assert(views(tokens@) =~= views(before).push(tv));
                Walk { tokens, remaining: self.remaining - 1, restarts: self.restarts }
            },
            _ => {
                let w = Walk::start(FALLBACK_SEED, FALLBACK_LENGTH);
                Walk { tokens: w.tokens, remaining: FALLBACK_LENGTH, restarts: self.restarts + 1 }
            },
        }
    }
}

/// The tokens of `p` separated by single spaces.
pub fn join_tokens(p: &Vec<String>) -> (r: String)
    ensures
        r@ == joined(views(p@)),
{
    let mut r = String::new();
    let mut i: usize = 0;
    while i < p.len()
        invariant
            i <= p@.len(),
            r@ == joined(views(p@).take(i as int)),
        decreases p@.len() - i,
    {
        let ghost q = views(p@).take(i + 1);
        assert(q.drop_last() == views(p@).take(i as int));
        assert(q.last() == p@[i as int]@);
        let ghost r0 = r@;
        if i > 0 {
            proof {
                reveal_strlit(" ");
            }
            r.append(" ");
            assert(r@ == r0 + seq![' ']);
        }
        r.append(p[i].as_str());
        proof {
            if i == 0 {
                assert(r@ =~= q[0]);
            } else {
                assert(r@ =~= joined(q.drop_last()) + seq![' '] + q.last());
            }
        }
        i = i + 1;
    }
    assert(views(p@).take(i as int) == views(p@));
    r
}

impl MarkovChain {
    /// Walks `length` steps from `start_word`, drawing each next token from
    /// the table. At a token with no record or no successor the walk starts
    /// over from the fallback seed with the fallback length. Where no dead end
    /// can be reached from the seed, the walk never restarts; where none can
    /// be reached from the fallback seed, at most one restart happens. `None`
    /// comes only once the restarts have run out, which needs a dead end
    /// within reach of the fallback seed.
    pub fn walk(&self, start_word: &str, length: usize) -> (r: Option<Vec<String>>)
        requires
            self.wf(),
        ensures
            length == 0 ==> (r matches Some(p) && views(p@) == seq![start_word@]),
            r matches Some(p) ==> is_generation(self@, start_word@, length as nat, views(p@)),
            walks_on(self@, start_word@, length as nat) ==> (r matches Some(p) && views(p@).len()
                == length + 1 && views(p@)[0] == start_word@),
            walks_on(self@, FALLBACK_SEED@, FALLBACK_LENGTH as nat) ==> r is Some,
            r is None ==> length > 0 && !walks_on(
                self@,
                FALLBACK_SEED@,
                FALLBACK_LENGTH as nat,
            ),
    {
        let mut w = Walk::start(start_word, length);
        while w.remaining > 0 && w.restarts < MAX_RESTARTS
            invariant
                self.wf(),
                views(w.tokens@).len() > 0,
                w.restarts <= MAX_RESTARTS,
                is_walk(self@, views(w.tokens@)),
                w.restarts == 0 ==> views(w.tokens@)[0] == start_word@ && views(w.tokens@).len()
                    + w.remaining == length + 1,
                w.restarts > 0 ==> views(w.tokens@)[0] == FALLBACK_SEED@ && views(w.tokens@).len()
                    + w.remaining == FALLBACK_LENGTH + 1,
                length == 0 ==> w.restarts == 0 && w.remaining == 0 && views(w.tokens@) == seq![
                    start_word@,
                ],
                walks_on(self@, start_word@, length as nat) ==> w.restarts == 0 && walks_on(
                    self@,
                    views(w.tokens@).last(),
                    w.remaining as nat,
                ),
                walks_on(self@, FALLBACK_SEED@, FALLBACK_LENGTH as nat) ==> w.restarts <= 1,
                walks_on(self@, FALLBACK_SEED@, FALLBACK_LENGTH as nat) && w.restarts > 0
                    ==> walks_on(self@, views(w.tokens@).last(), w.remaining as nat),
            decreases MAX_RESTARTS - w.restarts, w.remaining,
        {
            let current = w.tokens[w.tokens.len() - 1].clone();
            let outcome = self.sample_successor(&current);
            let ghost before = views(w.tokens@);
            let ghost rem = w.remaining;
            proof {
                assert(before.last() == current@);
                if walks_on(self@, current@, rem as nat) {
                    assert(self@.contains_key(current@) && self@[current@].len() > 0);
                    assert(outcome is Next);
                    let t = outcome->Next_0;
                    assert(self@[current@].contains(t@));
                    assert(walks_on(self@, t@, (rem - 1) as nat));
                }
            }
            w = w.advance(outcome);
            proof {
                let now = views(w.tokens@);
                if now.len() > 1 {
                    assert(now.last() == now[now.len() - 1]);
                }
                if now.len() > 1 {
                    assert(now == before.push(now.last()));
                    assert forall|i: int| 0 <= i < now.len() - 1 implies self@.contains_key(
                        #[trigger] now[i],
                    ) && self@[now[i]].contains(now[i + 1]) by {
                        if i < before.len() - 1 {
                            assert(now[i] == before[i] && now[i + 1] == before[i + 1]);
                        }
                    }
                    assert(now[0] == before[0]);
                }
            }
        }
        if w.remaining == 0 {
            Some(w.tokens)
        } else {
            None
        }
    }

    /// The tokens of a walk of `length` steps from `start_word` (see `walk`),
    /// separated by single spaces.
    pub fn generate(&self, start_word: &str, length: usize) -> (r: Option<String>)
        requires
            self.wf(),
        ensures
            length == 0 ==> (r matches Some(s) && s@ == start_word@),
            r matches Some(s) ==> exists|p: Seq<Seq<char>>|
                #[trigger] is_generation(self@, start_word@, length as nat, p) && s@ == joined(p),
            walks_on(self@, start_word@, length as nat) ==> (r matches Some(s) && exists|
                p: Seq<Seq<char>>,
            |
                #![trigger is_walk(self@, p)]
                p.len() == length + 1 && p[0] == start_word@ && is_walk(self@, p) && s@ == joined(
                    p,
                )),
            walks_on(self@, FALLBACK_SEED@, FALLBACK_LENGTH as nat) ==> r is Some,
            r is None ==> length > 0 && !walks_on(
                self@,
                FALLBACK_SEED@,
                FALLBACK_LENGTH as nat,
            ),
    {
        match self.walk(start_word, length) {
            Some(p) => {
                let s = join_tokens(&p);
                proof {
                    assert(is_generation(self@, start_word@, length as nat, views(p@)));
                    assert(is_walk(self@, views(p@)));
                    if length == 0 {
                        assert(views(p@).len() == 1);
                    }
                }
                Some(s)
            },
            None => None,
        }
    }
}

} // verus!
