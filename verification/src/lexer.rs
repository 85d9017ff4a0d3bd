//! A quote-aware word splitter for raw command lines.
//!
//! The splitter divides one input string into argv-style words: leading
//! whitespace is skipped, then either a single- or double-quoted span (quotes
//! stripped, content taken verbatim) or the maximal run of non-whitespace
//! characters is taken. It is read-only over its input and copies no text;
//! restarting means constructing a new splitter over the same text, which
//! reproduces the same sequence of words.

use vstd::prelude::*;

verus! {

/// Error raised by the word splitter.
#[derive(Clone, Copy, Debug, PartialEq, Eq, Structural)]
pub enum Error {
    /// Unknown error, for development only.
    Unknown,
}

/// Whether the character separates words.
pub open spec fn is_ws(c: char) -> bool {
    c == ' ' || c == '\t' || c == '\n'
}

/// The input with its leading whitespace removed.
pub open spec fn trim_ws(s: Seq<char>) -> Seq<char>
    decreases s.len(),
{
    if s.len() > 0 && is_ws(s[0]) {
        trim_ws(s.drop_first())
    } else {
        s
    }
}

/// The smallest index in `[from, s.len())` whose character satisfies `p`, or
/// `s.len()` if there is none.
pub open spec fn find_from(s: Seq<char>, from: int, p: spec_fn(char) -> bool) -> int
    decreases s.len() - from,
{
    if from < 0 || from >= s.len() {
        s.len() as int
    } else if p(s[from]) {
        from
    } else {
        find_from(s, from + 1, p)
    }
}

/// `trim_ws` keeps the tail that starts at the first non-whitespace
/// character.
proof fn lemma_trim_ws_at(s: Seq<char>, k: int)
    requires
        0 <= k <= s.len(),
        forall|j: int| 0 <= j < k ==> is_ws(s[j]),
        k == s.len() || !is_ws(s[k]),
    ensures
        trim_ws(s) =~= s.subrange(k, s.len() as int),
    decreases k,
{
    if k == 0 {
        assert(s =~= s.subrange(0, s.len() as int));
    } else {
        assert(is_ws(s[0]));
        let rest = s.drop_first();
        lemma_trim_ws_at(rest, k - 1);
        assert(rest.subrange(k - 1, rest.len() as int) =~= s.subrange(k, s.len() as int));
    }
}

/// The index that a scan for the first match reaches is what `find_from`
/// denotes.
proof fn lemma_find_from_witness(s: Seq<char>, from: int, p: spec_fn(char) -> bool, j: int)
    requires
        0 <= from <= j <= s.len(),
        forall|m: int| from <= m < j ==> !p(s[m]),
        j < s.len() ==> p(s[j]),
    ensures
        find_from(s, from, p) == if j < s.len() {
            j
        } else {
            s.len() as int
        },
    decreases j - from,
{
    if from == j {
    } else {
        assert(!p(s[from]));
        lemma_find_from_witness(s, from + 1, p, j);
    }
}

/// A predicate on characters that holds of the given quote alone.
pub open spec fn quote_pred(q: char) -> spec_fn(char) -> bool {
    |c: char| c == q
}

/// The whitespace predicate on characters.
pub open spec fn ws_pred() -> spec_fn(char) -> bool {
    |c: char| is_ws(c)
}

/// The next word of the input and the text that remains after it, if any
/// non-whitespace text remains: a quoted span when the first character is a
/// quote that closes later in the text, else the maximal non-whitespace run.
pub open spec fn next_word(s: Seq<char>) -> Option<(Seq<char>, Seq<char>)> {
    let t = trim_ws(s);
    if t.len() == 0 {
        None
    } else if t[0] == '\'' && find_from(t, 1, quote_pred('\'')) < t.len() {
        let j = find_from(t, 1, quote_pred('\''));
        Some((t.subrange(1, j), t.subrange(j + 1, t.len() as int)))
    } else if t[0] == '"' && find_from(t, 1, quote_pred('"')) < t.len() {
        let j = find_from(t, 1, quote_pred('"'));
        Some((t.subrange(1, j), t.subrange(j + 1, t.len() as int)))
    } else {
        let k = find_from(t, 0, ws_pred());
        Some((t.subrange(0, k), t.subrange(k, t.len() as int)))
    }
}

/// Taking a word strictly shortens the text.
proof fn lemma_next_word_shrinks(s: Seq<char>)
    ensures
        next_word(s) matches Some(pair) ==> pair.1.len() < s.len(),
{
    lemma_trim_ws_len(s);
    let t = trim_ws(s);
    if t.len() > 0 {
        if t[0] == '\'' && find_from(t, 1, quote_pred('\'')) < t.len() {
            lemma_find_from_witness_bounds(t, 1, quote_pred('\''));
        } else if t[0] == '"' && find_from(t, 1, quote_pred('"')) < t.len() {
            lemma_find_from_witness_bounds(t, 1, quote_pred('"'));
        } else {
            lemma_find_from_witness_bounds(t, 0, ws_pred());
            if find_from(t, 0, ws_pred()) == 0 {
                assert(ws_pred()(t[0]));
                assert(false);
            }
        }
    }
}

/// Trimming never lengthens the text, and what remains starts with a
/// non-whitespace character.
proof fn lemma_trim_ws_len(s: Seq<char>)
    ensures
        trim_ws(s).len() <= s.len(),
        trim_ws(s).len() > 0 ==> !is_ws(trim_ws(s)[0]),
    decreases s.len(),
{
    if s.len() > 0 && is_ws(s[0]) {
        lemma_trim_ws_len(s.drop_first());
    }
}

/// `find_from` stays within `[from, s.len()]` and lands on a match when one
/// exists.
proof fn lemma_find_from_witness_bounds(s: Seq<char>, from: int, p: spec_fn(char) -> bool)
    requires
        0 <= from <= s.len(),
    ensures
        from <= find_from(s, from, p) <= s.len(),
        find_from(s, from, p) < s.len() ==> p(s[find_from(s, from, p)]),
        forall|m: int| from <= m < find_from(s, from, p) ==> !p(s[m]),
    decreases s.len() - from,
{
    if from < s.len() && !p(s[from]) {
        lemma_find_from_witness_bounds(s, from + 1, p);
    }
}

/// All words of the input, in order.
pub open spec fn split_words(s: Seq<char>) -> Seq<Seq<char>>
    decreases s.len(),
    via split_words_decreases
{
    match next_word(s) {
        None => Seq::empty(),
        Some(pair) => seq![pair.0] + split_words(pair.1),
    }
}

#[via_fn]
proof fn split_words_decreases(s: Seq<char>) {
    lemma_next_word_shrinks(s);
}

/// Splitting is a pure function of the input text: a splitter restarted over
/// the same text reproduces the same sequence of words.
pub proof fn lemma_split_restartable(s1: Seq<char>, s2: Seq<char>)
    requires
        s1 == s2,
    ensures
        split_words(s1) == split_words(s2),
{
}

/// Lex the command line and split it into words in a POSIX-like way.
pub fn split<'a>(input: &'a str) -> (r: WordIterator<'a>)
    ensures
        r@ == input@,
{
    WordIterator::new(input)
}

/// A forward iterator over the words of one command line.
#[derive(Clone, Copy, Debug)]
pub struct WordIterator<'a> {
    input: &'a str,
}

impl<'a> View for WordIterator<'a> {
    type V = Seq<char>;

    /// The text that remains to be split.
    closed spec fn view(&self) -> Seq<char> {
        self.input@
    }
}

impl<'a> WordIterator<'a> {
    /// Create a new iterator from the input string.
    pub fn new(input: &'a str) -> (r: Self)
        ensures
            r@ == input@,
    {
        WordIterator { input }
    }

    /// Yield the next word, borrowing it from the input text.
    #[verifier::loop_isolation(false)]
    pub fn next(&mut self) -> (r: Option<Result<&'a str, Error>>)
        ensures
            next_word(old(self)@) is None ==> r is None && final(self)@ == trim_ws(old(self)@),
            next_word(old(self)@) matches Some(pair) ==> (r matches Some(outcome) && outcome
                matches Ok(word) && word@ == pair.0 && final(self)@ == pair.1),
    {
        let ghost s0 = self@;
        let n = self.input.unicode_len();

        // Remove useless leading whitespace.
        let mut k: usize = 0;
        while k < n && is_ws_char(self.input.get_char(k))
            invariant
                k <= n,
                forall|j: int| 0 <= j < k ==> is_ws(s0[j]),
            decreases n - k,
        {
            k = k + 1;
        }
        proof {
            lemma_trim_ws_at(s0, k as int);
        }
        self.input = self.input.substring_char(k, n);
        let ghost t = self@;
        proof {
            assert(t =~= trim_ws(s0));
        }
        let tn = n - k;

        // Check if the input is empty.
        if tn == 0 {
            return None;
        }

        // Quoted span: content between the first pair of quotes, taken
        // verbatim, the quotes stripped.
        let c0 = self.input.get_char(0);
        if c0 == '\'' || c0 == '"' {
            let mut j: usize = 1;
            while j < tn && self.input.get_char(j) != c0
                invariant
                    1 <= j <= tn,
                    forall|m: int| 1 <= m < j ==> t[m] != c0,
                decreases tn - j,
            {
                j = j + 1;
            }
            proof {
                if c0 == '\'' {
                    lemma_find_from_witness(t, 1, quote_pred('\''), j as int);
                } else {
                    lemma_find_from_witness(t, 1, quote_pred('"'), j as int);
                }
            }
            if j < tn {
                let word = self.input.substring_char(1, j);
                let rest = self.input.substring_char(j + 1, tn);
                self.input = rest;
                return Some(Ok(word));
            }
        }

        // Bare word: the maximal run of non-whitespace characters.
        let mut w: usize = 0;
        while w < tn && !is_ws_char(self.input.get_char(w))
            invariant
                w <= tn,
                forall|m: int| 0 <= m < w ==> !is_ws(t[m]),
            decreases tn - w,
        {
            w = w + 1;
        }
        proof {
            lemma_find_from_witness(t, 0, ws_pred(), w as int);
        }
        let word = self.input.substring_char(0, w);
        let rest = self.input.substring_char(w, tn);
        self.input = rest;
        Some(Ok(word))
    }
}

/// Whether the character separates words.
fn is_ws_char(c: char) -> (r: bool)
    ensures
        r == is_ws(c),
{
    c == ' ' || c == '\t' || c == '\n'
}

/// All words of the command line, in order, borrowed from the input text.
#[verifier::loop_isolation(false)]
pub fn split_all<'a>(input: &'a str) -> (r: Vec<&'a str>)
    ensures
        r.deep_view() == split_words(input@),
{
    let mut words: Vec<&'a str> = Vec::new();
    let mut iter = split(input);
    proof {
        assert(words.deep_view() =~= Seq::<Seq<char>>::empty());
        assert(words.deep_view() + split_words(iter@) =~= split_words(input@));
    }
    loop
        invariant
            words.deep_view() + split_words(iter@) == split_words(input@),
        decreases iter@.len(),
    {
        let ghost before = iter@;
        let ghost pre = words.deep_view();
        match iter.next() {
            Some(Ok(word)) => {
                words.push(word);
                proof {
                    lemma_next_word_shrinks(before);
                    assert(words.deep_view() =~= pre.push(word@));
                    assert(words.deep_view() + split_words(iter@) =~= pre + split_words(before));
                }
            },
            Some(Err(_)) => {
                proof {
                    assert(false);
                }
                return words;
            },
            None => {
                proof {
                    assert(split_words(before) =~= Seq::<Seq<char>>::empty());
                    assert(words.deep_view() =~= split_words(input@));
                }
                return words;
            },
        }
    }
}

} // verus!
