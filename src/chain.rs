//! The transition table: for every token, the tokens observed right after it,
//! one entry per occurrence, so that repetition encodes frequency.
use vstd::prelude::*;
use crate::sampling::draw_weighted;
use crate::tokenizer::{tokenize, tokens_of, views};

verus! {

/// The successors of `w` in `ts`: the token after each occurrence of `w`
/// that has one, in order.
pub open spec fn successors_in(ts: Seq<Seq<char>>, w: Seq<char>) -> Seq<Seq<char>>
    decreases ts.len(),
{
    if ts.len() < 2 {
        seq![]
    } else {
        let earlier = successors_in(ts.drop_last(), w);
        if ts[ts.len() - 2] == w {
            earlier.push(ts.last())
        } else {
            earlier
        }
    }
}

/// The successors recorded for `k`, or none if `k` has no record.
pub open spec fn successors_or_empty(
    m: Map<Seq<char>, Seq<Seq<char>>>,
    k: Seq<char>,
) -> Seq<Seq<char>> {
    if m.contains_key(k) {
        m[k]
    } else {
        seq![]
    }
}

/// The table `m` after learning the token sequence `ts`: every token of `ts`
/// has a record, and each record gains the successors that `ts` shows.
pub open spec fn learned(
    m: Map<Seq<char>, Seq<Seq<char>>>,
    ts: Seq<Seq<char>>,
) -> Map<Seq<char>, Seq<Seq<char>>> {
    Map::new(
        |k: Seq<char>| m.contains_key(k) || ts.contains(k),
        |k: Seq<char>| successors_or_empty(m, k) + successors_in(ts, k),
    )
}

/// Learning one more token adds a record for it, if it has none, and appends
/// it to the record of the token before it.
proof fn lemma_learned_push(m: Map<Seq<char>, Seq<Seq<char>>>, ts: Seq<Seq<char>>, t: Seq<char>)
    ensures
        ({
            let m1 = learned(m, ts);
            let m2 = if m1.contains_key(t) {
                m1
            } else {
                m1.insert(t, seq![])
            };
            learned(m, ts.push(t)) == if ts.len() > 0 {
                m2.insert(ts.last(), m2[ts.last()].push(t))
            } else {
                m2
            }
        }),
{
    let ts2 = ts.push(t);
    assert(ts2.drop_last() == ts);
    let m1 = learned(m, ts);
    let m2 = if m1.contains_key(t) {
        m1
    } else {
        m1.insert(t, seq![])
    };
    assert forall|k: Seq<char>| #[trigger] ts2.contains(k) <==> ts.contains(k) || k == t by {
        if ts2.contains(k) {
            let j = choose|j: int| 0 <= j < ts2.len() && ts2[j] == k;
            if j < ts.len() {
                assert(ts[j] == k);
            }
        }
        if ts.contains(k) {
            let j = choose|j: int| 0 <= j < ts.len() && ts[j] == k;
            assert(ts2[j] == k);
        }
        if k == t {
            assert(ts2[ts.len() as int] == k);
        }
    }
    lemma_successors_in_contains(ts, t);
    if ts.len() == 0 {
        assert(successors_in(ts2, t) == Seq::<Seq<char>>::empty());
        assert(learned(m, ts2) =~= m2);
    } else {
        assert(ts2[ts2.len() - 2] == ts.last());
        let m3 = m2.insert(ts.last(), m2[ts.last()].push(t));
        assert forall|k: Seq<char>| #[trigger]
            learned(m, ts2).contains_key(k) implies learned(m, ts2)[k] == m3[k] by {
            lemma_successors_in_contains(ts, k);
            let a = successors_or_empty(m, k);
            let b = successors_in(ts, k);
            if k == ts.last() {
                assert(ts.contains(k)) by {
                    assert(ts[ts.len() - 1] == k);
                }
                assert(m2[k] == a + b);
                assert((a + b).push(t) =~= a + b.push(t));
            } else if m1.contains_key(k) {
                assert(m3[k] == a + b);
            } else {
                assert(k == t);
                assert(a =~= Seq::<Seq<char>>::empty());
                assert(b =~= Seq::<Seq<char>>::empty());
                assert(a + b =~= Seq::<Seq<char>>::empty());
            }
        }
        assert(learned(m, ts2) =~= m3);
    }
}

/// A token has successors in a sequence only if it occurs there.
proof fn lemma_successors_in_contains(ts: Seq<Seq<char>>, w: Seq<char>)
    ensures
        successors_in(ts, w).len() > 0 ==> ts.contains(w),
    decreases ts.len(),
{
    if ts.len() >= 2 {
        lemma_successors_in_contains(ts.drop_last(), w);
        if successors_in(ts.drop_last(), w).len() > 0 {
            let j = choose|j: int| 0 <= j < ts.drop_last().len() && ts.drop_last()[j] == w;
            assert(ts[j] == w);
        } else if successors_in(ts, w).len() > 0 {
            assert(ts[ts.len() - 2] == w);
        }
    }
}

/// Each token but the last is followed, in the successors of that token, by
/// the token after it.
proof fn lemma_successors_in_pair(ts: Seq<Seq<char>>, i: int)
    requires
        0 <= i < ts.len() - 1,
    ensures
        successors_in(ts, ts[i]).contains(ts[i + 1]),
    decreases ts.len(),
{
    let earlier = successors_in(ts.drop_last(), ts[i]);
    if i < ts.len() - 2 {
        lemma_successors_in_pair(ts.drop_last(), i);
        assert(ts.drop_last()[i] == ts[i] && ts.drop_last()[i + 1] == ts[i + 1]);
        let j = choose|j: int| 0 <= j < earlier.len() && earlier[j] == ts[i + 1];
        if ts[ts.len() - 2] == ts[i] {
            assert(successors_in(ts, ts[i])[j] == ts[i + 1]);
        }
    } else {
        assert(successors_in(ts, ts[i]) == earlier.push(ts.last()));
        assert(successors_in(ts, ts[i])[earlier.len() as int] == ts[i + 1]);
    }
}

/// A table learned from a single corpus, starting empty, holds a record for
/// exactly the tokens of the corpus, and each token that has a token after it
/// lists that token among its successors.
pub proof fn lemma_learned_from_empty(ts: Seq<Seq<char>>)
    ensures
        forall|k: Seq<char>|
            #[trigger] learned(Map::empty(), ts).contains_key(k) <==> ts.contains(k),
        forall|i: int|
            0 <= i < ts.len() - 1 ==> #[trigger] learned(Map::empty(), ts)[ts[i]].contains(
                ts[i + 1],
            ),
{
    let m = Map::<Seq<char>, Seq<Seq<char>>>::empty();
    assert forall|i: int| 0 <= i < ts.len() - 1 implies #[trigger] learned(m, ts)[ts[i]].contains(
        ts[i + 1],
    ) by {
        lemma_successors_in_pair(ts, i);
        assert(successors_or_empty(m, ts[i]) + successors_in(ts, ts[i]) =~= successors_in(
            ts,
            ts[i],
        ));
    }
}

/// A token and the tokens observed right after it, one entry per occurrence.
pub struct Word {
    pub word: String,
    pub transitions: Vec<String>,
}

impl Word {
    /// The successors recorded for this token, as character sequences.
    pub open spec fn successors(&self) -> Seq<Seq<char>> {
        views(self.transitions@)
    }

    /// A record for `word` with no successor yet.
    pub fn new(word: String) -> (r: Self)
        ensures
            r.word@ == word@,
            r.successors() == Seq::<Seq<char>>::empty(),
    {
        let r = Word { word, transitions: Vec::new() };
        assert(r.successors() =~= Seq::<Seq<char>>::empty());
        r
    }

    /// Records one more occurrence of `new_transition` after this token.
    pub fn add_transition(&mut self, new_transition: String)
        ensures
            final(self).word == old(self).word,
            final(self).successors() == old(self).successors().push(new_transition@),
    {
        let ghost t = new_transition@;
        self.transitions.push(new_transition);
        assert(self.successors() =~= old(self).successors().push(t));
    }
}

/// What the table offers after a token.
pub enum Successor {
    /// The token has no record.
    Unknown,
    /// The token has a record with no successor.
    Terminal,
    /// A successor drawn from the record.
    Next(String),
}

/// A first-order Markov chain over tokens, keyed by token text.
pub struct MarkovChain {
    words: Vec<Word>,
    table: Ghost<Map<Seq<char>, Seq<Seq<char>>>>,
}

impl View for MarkovChain {
    type V = Map<Seq<char>, Seq<Seq<char>>>;

    /// Each known token with its successors, in the order they were observed.
    closed spec fn view(&self) -> Map<Seq<char>, Seq<Seq<char>>> {
        self.table@
    }
}

impl Default for MarkovChain {
    /// An empty table.
    fn default() -> (r: Self)
        ensures
            r.wf(),
            r@ == Map::<Seq<char>, Seq<Seq<char>>>::empty(),
    {
        MarkovChain::new()
    }
}

impl MarkovChain {
    /// The records are keyed by distinct tokens and agree with the table.
    pub closed spec fn wf(&self) -> bool {
        &&& forall|i: int, j: int|
            0 <= i < j < self.words@.len() ==> self.words@[i].word@ != self.words@[j].word@
        &&& forall|i: int|
            0 <= i < self.words@.len() ==> {
                &&& #[trigger] self.table@.contains_key(self.words@[i].word@)
                &&& self.table@[self.words@[i].word@] == self.words@[i].successors()
            }
        &&& forall|k: Seq<char>|
            #[trigger] self.table@.contains_key(k) ==> exists|i: int|
                0 <= i < self.words@.len() && self.words@[i].word@ == k
    }

    /// An empty table.
    pub fn new() -> (r: Self)
        ensures
            r.wf(),
            r@ == Map::<Seq<char>, Seq<Seq<char>>>::empty(),
    {
        MarkovChain { words: Vec::new(), table: Ghost(Map::empty()) }
    }

    /// The position of the record of `key`, if there is one.
    fn find(&self, key: &String) -> (r: Option<usize>)
        requires
            self.wf(),
        ensures
            r matches Some(i) ==> i < self.words@.len() && self.words@[i as int].word@ == key@,
            r is None ==> !self@.contains_key(key@),
    {
        let mut i: usize = 0;
        while i < self.words.len()
            invariant
                i <= self.words@.len(),
                forall|j: int| 0 <= j < i ==> self.words@[j].word@ != key@,
            decreases self.words@.len() - i,
        {
            if self.words[i].word == *key {
                return Some(i);
            }
            i = i + 1;
        }
        None
    }

    /// Learns a token sequence: each token gets a record if it has none, and
    /// each token but the last gains the one after it as a successor.
    /// Learning the same sequence twice doubles every observation.
    pub fn learn_tokens(&mut self, tokens: &Vec<String>)
        requires
            old(self).wf(),
        ensures
            final(self).wf(),
            final(self)@ == learned(old(self)@, views(tokens@)),
    {
        let ghost ts = views(tokens@);
        let ghost m = self@;
        let mut prev: usize = 0;
        let mut i: usize = 0;
        assert(learned(m, ts.take(0)) =~= m);
        while i < tokens.len()
            invariant
                self.wf(),
                i <= tokens@.len(),
                ts == views(tokens@),
                self@ == learned(m, ts.take(i as int)),
                i > 0 ==> prev < self.words@.len() && self.words@[prev as int].word@ == ts[i - 1],
            decreases tokens@.len() - i,
        {
            let key = tokens[i].clone();
            proof {
                lemma_learned_push(m, ts.take(i as int), key@);
                assert(ts.take(i as int).push(key@) == ts.take(i + 1));
            }
            let idx = match self.find(&key) {
                Some(j) => j,
                None => {
                    let ghost k = key@;
                    let ghost before = self.words@;
                    proof {
                        assert forall|j: int| 0 <= j < before.len() implies before[j].word@ != k by {
                            assert(self.table@.contains_key(before[j].word@));
                        }
                    }
                    self.words.push(Word::new(key));
                    self.table = Ghost(self.table@.insert(k, seq![]));
                    proof {
                        let n = self.words@.len();
                        assert(self.words@[n - 1].word@ == k);
                        assert forall|a: int|
                            0 <= a < n implies #[trigger] self.table@.contains_key(
                            self.words@[a].word@,
                        ) && self.table@[self.words@[a].word@] == self.words@[a].successors() by {
                            if a < n - 1 {
                                assert(self.words@[a] == before[a]);
                            }
                        }
                        assert forall|k2: Seq<char>| #[trigger]
                            self.table@.contains_key(k2) implies exists|a: int|
                            0 <= a < n && self.words@[a].word@ == k2 by {
                            if k2 == k {
                                assert(self.words@[n - 1].word@ == k2);
                            } else {
                                let a = choose|a: int| 0 <= a < before.len() && before[a].word@ == k2;
                                assert(self.words@[a] == before[a]);
                            }
                        }
                    }
                    self.words.len() - 1
                },
            };
            if i > 0 {
                let ghost pk = self.words@[prev as int].word@;
                let ghost before = self.words@;
                let ghost old_table = self.table@;
                assert(old_table.contains_key(before[prev as int].word@));
                assert(old_table[pk] == before[prev as int].successors());
                let next = tokens[i].clone();
                self.words[prev].add_transition(next);
                self.table = Ghost(self.table@.insert(pk, self.table@[pk].push(ts[i as int])));
                proof {
                    let n = self.words@.len();
                    assert forall|a: int|
                        0 <= a < n implies #[trigger] self.table@.contains_key(
                        self.words@[a].word@,
                    ) && self.table@[self.words@[a].word@] == self.words@[a].successors() by {
                        if a != prev {
                            assert(self.words@[a] == before[a]);
                            assert(before[a].word@ != pk);
                            assert(old_table.contains_key(before[a].word@));
                        } else {
                            assert(self.words@[a].successors() == before[a].successors().push(
                                ts[i as int],
                            ));
                        }
                    }
                    assert forall|k2: Seq<char>| #[trigger]
                        self.table@.contains_key(k2) implies exists|a: int|
                        0 <= a < n && self.words@[a].word@ == k2 by {
                        let a = choose|a: int| 0 <= a < before.len() && before[a].word@ == k2;
                        assert(self.words@[a].word@ == before[a].word@);
                    }
                }
            }
            prev = idx;
            i = i + 1;
        }
        assert(ts.take(i as int) == ts);
    }

    /// Looks `word` up and, where it has successors, draws one of them, each
    /// distinct successor with probability proportional to how often it was
    /// observed.
    pub fn sample_successor(&self, word: &String) -> (r: Successor)
        requires
            self.wf(),
        ensures
            r is Unknown <==> !self@.contains_key(word@),
            r is Terminal <==> self@.contains_key(word@) && self@[word@].len() == 0,
            r matches Successor::Next(t) ==> self@.contains_key(word@) && self@[word@].contains(t@),
    {
        match self.find(word) {
            None => Successor::Unknown,
            Some(i) => {
                proof {
                    assert(self@.contains_key(self.words@[i as int].word@));
                }
                if self.words[i].transitions.len() == 0 {
                    Successor::Terminal
                } else {
                    Successor::Next(draw_weighted(&self.words[i].transitions))
                }
            },
        }
    }

    /// Whether `word` has a record.
    pub fn contains(&self, word: &str) -> (r: bool)
        requires
            self.wf(),
        ensures
            r == self@.contains_key(word@),
    {
        self.find(&word.to_owned()).is_some()
    }

    /// The successors recorded for `word`, in the order observed, or `None`
    /// if it has no record.
    pub fn successors(&self, word: &str) -> (r: Option<Vec<String>>)
        requires
            self.wf(),
        ensures
            r is Some <==> self@.contains_key(word@),
            r matches Some(v) ==> views(v@) == self@[word@],
    {
        match self.find(&word.to_owned()) {
            None => None,
            Some(i) => {
                let ts = &self.words[i].transitions;
                let mut v: Vec<String> = Vec::new();
                let mut j: usize = 0;
                while j < ts.len()
                    invariant
                        j <= ts@.len(),
                        views(v@) == views(ts@).take(j as int),
                    decreases ts@.len() - j,
                {
                    let ghost v0 = v@;
                    v.push(ts[j].clone());
                    assert(views(v@) =~= views(v0).push(ts@[j as int]@));
                    assert(views(ts@).take(j + 1) =~= views(ts@).take(j as int).push(ts@[j as int]@));
                    j = j + 1;
                }
                assert(views(ts@).take(j as int) =~= views(ts@));
                assert(self@.contains_key(self.words@[i as int].word@));
                Some(v)
            },
        }
    }

    /// Tokenizes `text` at width five and learns the result.
    pub fn learn(&mut self, text: &str)
        requires
            old(self).wf(),
        ensures
            final(self).wf(),
            final(self)@ == learned(old(self)@, tokens_of(text@, 5)),
    {
        let tokens = tokenize(text, 5);
        self.learn_tokens(&tokens);
    }
}

} // verus!
