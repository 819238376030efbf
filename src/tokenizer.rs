//! Splits text into script-homogeneous runs and cuts each run into pieces of
//! bounded width.
use vstd::prelude::*;
use vstd::std_specs::iter::IteratorSpec;

verus! {

/// The pattern of a script run: a maximal stretch of ideographs, of one of
/// the two syllabaries (the second with its long-sound mark), or of ASCII
/// letters together with the full-width period and comma.
pub const SCRIPT_RUNS: &'static str = "([一-龯]+|[ぁ-ん]+|[ァ-ヴー]+|[。、a-zA-Z]+)";

/// The class of a character under the script-run pattern: 1 for an
/// ideograph, 2 for the first syllabary, 3 for the second syllabary or its
/// long-sound mark, 4 for an ASCII letter or the full-width period or comma,
/// and 0 for any other character. The four ranges are disjoint.
pub open spec fn script_class(c: char) -> int {
    let u = c as u32;
    if 0x4E00 <= u <= 0x9FAF {
        1
    } else if 0x3041 <= u <= 0x3093 {
        2
    } else if (0x30A1 <= u <= 0x30F4) || u == 0x30FC {
        3
    } else if u == 0x3001 || u == 0x3002 || (0x41 <= u <= 0x5A) || (0x61 <= u <= 0x7A) {
        4
    } else {
        0
    }
}

/// The maximal runs of `text` whose characters share one non-zero class,
/// from left to right; characters of class 0 separate runs and are dropped.
pub open spec fn script_runs(text: Seq<char>) -> Seq<Seq<char>>
    decreases text.len(),
{
    if text.len() == 0 {
        seq![]
    } else {
        let r = script_runs(text.drop_last());
        let c = text.last();
        if script_class(c) == 0 {
            r
        } else if text.len() > 1 && script_class(text[text.len() - 2]) == script_class(c)
            && r.len() > 0 {
            r.drop_last().push(r.last().push(c))
        } else {
            r.push(seq![c])
        }
    }
}

/// Runs `pattern` over `text` and returns the matched substrings.
/// Relies on `regex::Regex::new`, which accepts the script-run pattern, and on
/// `Regex::find_iter`, which yields the leftmost-first, non-overlapping matches
/// from left to right. Each alternative of the pattern is a greedy repetition
/// of one class, and the classes are disjoint, so the matches are exactly the
/// maximal runs of one class.
#[verifier::external_body]
fn find_matches(pattern: &str, text: &str) -> (r: Vec<String>)
    requires
        pattern@ == SCRIPT_RUNS@,
    ensures
        views(r@) == script_runs(text@),
{
    let re = regex::Regex::new(pattern).unwrap();
    re.find_iter(text).map(|m| m.as_str().to_string()).collect()
}

/// The pieces of `s`, in order, each `width` characters long but the last,
/// which holds what remains.
pub open spec fn chunks_of(s: Seq<char>, width: nat) -> Seq<Seq<char>>
    decreases s.len(),
{
    if s.len() == 0 || width == 0 {
        seq![]
    } else if s.len() <= width {
        seq![s]
    } else {
        seq![s.take(width as int)] + chunks_of(s.skip(width as int), width)
    }
}

/// Chunking drops no character and adds none: the pieces, put back
/// together in order, give the input, and each piece has between one and
/// `width` characters.
pub proof fn lemma_chunks_cover(s: Seq<char>, width: nat)
    requires
        width > 0,
    ensures
        chunks_of(s, width).flatten() == s,
        forall|i: int|
            0 <= i < chunks_of(s, width).len() ==> 0 < (#[trigger] chunks_of(s, width)[i]).len()
                <= width,
    decreases s.len(),
{
    let c = chunks_of(s, width);
    if s.len() == 0 {
        assert(c.flatten() =~= s);
    } else if s.len() <= width {
        assert(c.drop_first() =~= Seq::<Seq<char>>::empty());
        assert(c.drop_first().flatten() =~= Seq::<char>::empty());
        assert(c.first() == s);
        assert(c.flatten() =~= s);
    } else {
        let rest = s.skip(width as int);
        lemma_chunks_cover(rest, width);
        assert(c.drop_first() == chunks_of(rest, width));
        assert(s.take(width as int) + rest =~= s);
        assert forall|i: int| 0 <= i < c.len() implies 0 < (#[trigger] c[i]).len() <= width by {
            if i > 0 {
                assert(c[i] == chunks_of(rest, width)[i - 1]);
            }
        }
    }
}

/// The views of a vector of strings.
pub open spec fn views(v: Seq<String>) -> Seq<Seq<char>> {
    v.map_values(|t: String| t@)
}

/// Appends one character to a string.
/// Relies on `String::push`: the character is added at the end.
#[verifier::external_body]
fn push_char(s: &mut String, c: char)
    ensures
        final(s)@ == old(s)@.push(c),
{
    s.push(c);
}

/// The characters of `s`, in order.
fn chars_of(s: &str) -> (r: Vec<char>)
    ensures
        r@ == s@,
{
    broadcast use vstd::string::axiom_spec_iter, vstd::string::next_postcondition;
    let mut it = s.chars();
    let mut r: Vec<char> = Vec::new();
    loop
        invariant
            r@ + it.remaining() == s@,
            it.decrease() is Some,
        ensures
            r@ == s@,
        decreases it.decrease()->0,
    {
        match it.next() {
            Some(c) => {
                r.push(c);
            },
            None => {
                break;
            },
        }
    }
    r
}

/// The pieces of every run, run after run.
pub open spec fn chunk_all(runs: Seq<Seq<char>>, width: nat) -> Seq<Seq<char>>
    decreases runs.len(),
{
    if runs.len() == 0 {
        seq![]
    } else {
        chunk_all(runs.drop_last(), width) + chunks_of(runs.last(), width)
    }
}

/// The tokens of `text` at the given width.
pub open spec fn tokens_of(text: Seq<char>, width: nat) -> Seq<Seq<char>> {
    chunk_all(script_runs(text), width)
}

/// Splits `text` into its script runs; characters of no class separate runs
/// and are dropped.
pub fn separate_tokens(text: &str) -> (r: Vec<String>)
    ensures
        views(r@) == script_runs(text@),
        text@.len() == 0 ==> r@.len() == 0,
{
    let r = find_matches(SCRIPT_RUNS, text);
    assert(views(r@).len() == r@.len());
    r
}

/// Cuts `input` into consecutive pieces of `chunk_size` characters; the last
/// piece holds the rest.
pub fn chunk_string(input: &str, chunk_size: usize) -> (r: Vec<String>)
    requires
        chunk_size > 0,
    ensures
        views(r@) == chunks_of(input@, chunk_size as nat),
{
    let cs = chars_of(input);
    let n = cs.len();
    let mut r: Vec<String> = Vec::new();
    let mut i: usize = 0;
    assert(cs@.skip(0) == cs@);
    assert(views(r@) == Seq::<Seq<char>>::empty());
    while i < n
        invariant
            cs@ == input@,
            n == cs@.len(),
            chunk_size > 0,
            i <= n,
            views(r@) + chunks_of(cs@.skip(i as int), chunk_size as nat) == chunks_of(
                cs@,
                chunk_size as nat,
            ),
        decreases n - i,
    {
        let end: usize = if n - i <= chunk_size {
            n
        } else {
            i + chunk_size
        };
        let mut piece = String::new();
        let mut j: usize = i;
        while j < end
            invariant
                i <= j <= end <= n,
                n == cs@.len(),
                piece@ == cs@.subrange(i as int, j as int),
            decreases end - j,
        {
            push_char(&mut piece, cs[j]);
            assert(cs@.subrange(i as int, j + 1) == cs@.subrange(i as int, j as int).push(cs@[j as int]));
            j = j + 1;
        }
        proof {
            let rest = cs@.skip(i as int);
            assert(rest.len() > 0);
            if n - i <= chunk_size {
                assert(rest == piece@);
                assert(cs@.skip(end as int).len() == 0);
                assert(chunks_of(cs@.skip(end as int), chunk_size as nat) == Seq::<Seq<char>>::empty());
            } else {
                assert(rest.take(chunk_size as int) == piece@);
                assert(rest.skip(chunk_size as int) == cs@.skip(end as int));
            }
            assert(views(r@.push(piece)) == views(r@).push(piece@));
        }
        r.push(piece);
        i = end;
    }
    proof {
        assert(cs@.skip(n as int).len() == 0);
        assert(views(r@) + chunks_of(cs@.skip(n as int), chunk_size as nat) == views(r@));
    }
    r
}

/// Cuts every run into pieces of `width` characters, keeping their order.
pub fn chunk_runs(runs: &Vec<String>, width: usize) -> (r: Vec<String>)
    requires
        width > 0,
    ensures
        views(r@) == chunk_all(views(runs@), width as nat),
{
    let mut r: Vec<String> = Vec::new();
    let mut k: usize = 0;
    while k < runs.len()
        invariant
            width > 0,
            k <= runs@.len(),
            views(r@) == chunk_all(views(runs@).take(k as int), width as nat),
        decreases runs@.len() - k,
    {
        let pieces = chunk_string(runs[k].as_str(), width);
        proof {
            let vs = views(runs@);
            assert(vs.take(k + 1).drop_last() == vs.take(k as int));
            assert(vs.take(k + 1).last() == runs@[k as int]@);
        }
        let mut m: usize = 0;
        let ghost before = views(r@);
        while m < pieces.len()
            invariant
                m <= pieces@.len(),
                views(r@) == before + views(pieces@).take(m as int),
            decreases pieces@.len() - m,
        {
            proof {
                assert(views(r@.push(pieces[m as int])) == views(r@).push(pieces@[m as int]@));
                assert(views(pieces@).take(m + 1) == views(pieces@).take(m as int).push(pieces@[m as int]@));
            }
            r.push(pieces[m].clone());
            m = m + 1;
        }
        assert(views(pieces@).take(m as int) == views(pieces@));
        k = k + 1;
    }
    assert(views(runs@).take(k as int) == views(runs@));
    r
}

/// The token that seeds a reply to `input`: the first token at width three,
/// or the empty string when `input` has none.
pub fn seed_token(input: &str) -> (r: String)
    ensures
        tokens_of(input@, 3).len() > 0 ==> r@ == tokens_of(input@, 3)[0],
        tokens_of(input@, 3).len() == 0 ==> r@ == Seq::<char>::empty(),
{
    let tokens = tokenize(input, 3);
    if tokens.len() > 0 {
        assert(views(tokens@)[0] == tokens@[0]@);
        tokens[0].clone()
    } else {
        String::new()
    }
}

/// Splits `text` into script runs and cuts each into pieces of at most
/// `width` characters.
pub fn tokenize(text: &str, width: usize) -> (r: Vec<String>)
    requires
        width > 0,
    ensures
        views(r@) == tokens_of(text@, width as nat),
        text@.len() == 0 ==> r@.len() == 0,
{
    let runs = separate_tokens(text);
    let r = chunk_runs(&runs, width);
    proof {
        if text@.len() == 0 {
            assert(views(runs@).len() == 0);
            assert(chunk_all(views(runs@), width as nat) == Seq::<Seq<char>>::empty());
        }
    }
    r
}

} // verus!
