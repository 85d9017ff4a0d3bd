//! A lexer for generating tokens from a command line.

use vstd::prelude::*;

verus! {

/// Variant of `Flag` token. Only stores the identifier, not the hyphens.
#[derive(Clone, Copy, Debug, Eq)]
pub enum Flag<'a> {
    /// A short flag (e.g. -v).
    Short(char),

    /// A long flag (e.g. --verbose).
    Long(&'a str),
}

impl<'a> PartialEq for Flag<'a> {
    /// Flag identity is structural: same variant, same spelling.
    fn eq(&self, other: &Flag<'a>) -> (r: bool) {
        match (self, other) {
            (Flag::Short(a), Flag::Short(b)) => *a == *b,
            (Flag::Long(a), Flag::Long(b)) => crate::strings::str_eq(a, b),
            _ => false,
        }
    }
}

impl<'a> vstd::std_specs::cmp::PartialEqSpecImpl for Flag<'a> {
    open spec fn obeys_eq_spec() -> bool {
        true
    }

    open spec fn eq_spec(&self, other: &Flag<'a>) -> bool {
        self@ == other@
    }
}

/// Mathematical model of a [`Flag`].
pub enum FlagView {
    Short(char),
    Long(Seq<char>),
}

impl<'a> View for Flag<'a> {
    type V = FlagView;

    open spec fn view(&self) -> FlagView {
        match self {
            Flag::Short(c) => FlagView::Short(*c),
            Flag::Long(name) => FlagView::Long(name@),
        }
    }
}

impl<'a> DeepView for Flag<'a> {
    type V = FlagView;

    open spec fn deep_view(&self) -> FlagView {
        self.view()
    }
}

/// Defines a `Token` that has been read from the command line.
#[derive(Clone, Copy, Debug, PartialEq)]
pub enum Token<'a> {
    /// Flag.
    Flag(Flag<'a>),

    /// Value (i.e. everything that is not a short or long flag).
    Value(&'a str),
}

/// Mathematical model of a [`Token`].
pub enum TokenView {
    Flag(FlagView),
    Value(Seq<char>),
}

impl<'a> View for Token<'a> {
    type V = TokenView;

    open spec fn view(&self) -> TokenView {
        match self {
            Token::Flag(flag) => TokenView::Flag(flag@),
            Token::Value(value) => TokenView::Value(value@),
        }
    }
}

impl<'a> DeepView for Token<'a> {
    type V = TokenView;

    open spec fn deep_view(&self) -> TokenView {
        self.view()
    }
}

/// Whether the character is a decimal digit.
pub open spec fn is_digit(c: char) -> bool {
    '0' <= c && c <= '9'
}

/// Whether the character is a decimal point.
pub open spec fn is_dot(c: char) -> bool {
    c == '.'
}

/// Whether the character is an exponent marker.
pub open spec fn is_exp(c: char) -> bool {
    c == 'e' || c == 'E'
}

/// The sequence with a single leading sign removed, if one is present.
pub open spec fn strip_sign(s: Seq<char>) -> Seq<char> {
    if s.len() > 0 && s[0] == '-' {
        s.drop_first()
    } else {
        s
    }
}

/// Whether a sign-stripped sequence spells a numeric literal: only digits,
/// at most one dot (not first, before any exponent marker), and at most one
/// exponent marker (not first, not last).
pub open spec fn is_numeric_body(t: Seq<char>) -> bool {
    &&& forall|i: int|
        0 <= i < t.len() ==> is_digit(#[trigger] t[i]) || is_dot(t[i]) || is_exp(t[i])
    &&& forall|i: int, j: int|
        0 <= i < j < t.len() ==> !(is_dot(#[trigger] t[i]) && is_dot(#[trigger] t[j]))
    &&& forall|i: int, j: int|
        0 <= i < j < t.len() ==> !(is_exp(#[trigger] t[i]) && is_exp(#[trigger] t[j]))
    &&& forall|i: int, j: int|
        0 <= i < j < t.len() ==> !(is_exp(#[trigger] t[i]) && is_dot(#[trigger] t[j]))
    &&& forall|i: int| 0 <= i < t.len() && is_dot(#[trigger] t[i]) ==> i > 0
    &&& forall|i: int| 0 <= i < t.len() && is_exp(#[trigger] t[i]) ==> 0 < i < t.len() - 1
}

/// Whether the token string represents a number, once a single leading sign
/// is removed. A sign with nothing after it counts as numeric, so a lone `-`
/// is never mistaken for a flag.
pub open spec fn spec_is_number(s: Seq<char>) -> bool {
    is_numeric_body(strip_sign(s))
}

/// Whether the token string spells a long flag: `--` followed by at least one
/// character.
pub open spec fn spec_is_long_flag(s: Seq<char>) -> bool {
    s.len() > 2 && s[0] == '-' && s[1] == '-'
}

/// Whether the token string spells a short flag: a single `-` followed by
/// exactly one character, where the pair is neither `--` nor a numeric
/// literal.
pub open spec fn spec_is_short_flag(s: Seq<char>) -> bool {
    s.len() == 2 && s[0] == '-' && s[1] != '-' && !spec_is_number(s)
}

/// The semantic token for one raw string, following the classification rules:
/// a `--`-prefixed word is a long flag, a dash-led numeric literal is a value,
/// a two-character `-x` is a short flag, and anything else is a value — in
/// particular a lone `-` or `--`, and any longer single-dash word such as
/// `-flag`.
pub open spec fn spec_tokenize(s: Seq<char>) -> TokenView {
    if s.len() >= 3 && s[0] == '-' && s[1] == '-' {
        TokenView::Flag(FlagView::Long(s.subrange(2, s.len() as int)))
    } else if s.len() >= 1 && s[0] == '-' && spec_is_number(s) {
        TokenView::Value(s)
    } else if s.len() == 2 && s[0] == '-' && s[1] != '-' {
        TokenView::Flag(FlagView::Short(s[1]))
    } else {
        TokenView::Value(s)
    }
}

impl<'a> Token<'a> {
    /// Evaluate if the token string is a short flag.
    pub fn is_short_flag(input: &str) -> (r: bool)
        ensures
            r == spec_is_short_flag(input@),
    {
        let n = input.unicode_len();
        if n != 2 {
            return false;
        }
        if input.get_char(0) != '-' || input.get_char(1) == '-' {
            return false;
        }
        !Self::is_number(input)
    }

    /// Evaluate if the token string is a long flag.
    pub fn is_long_flag(input: &str) -> (r: bool)
        ensures
            r == spec_is_long_flag(input@),
    {
        let n = input.unicode_len();
        n > 2 && input.get_char(0) == '-' && input.get_char(1) == '-'
    }

    /// Evaluate if the token string is a flag.
    pub fn is_flag(input: &str) -> (r: bool)
        ensures
            r == (spec_is_short_flag(input@) || spec_is_long_flag(input@)),
    {
        Self::is_short_flag(input) || Self::is_long_flag(input)
    }

    /// Evaluate if the token string represents a number.
    #[verifier::loop_isolation(false)]
    pub fn is_number(input: &str) -> (r: bool)
        ensures
            r == spec_is_number(input@),
    {
        let ghost s = input@;
        let n = input.unicode_len();

        // Remove the front sign if any.
        let start: usize = if n >= 1 && input.get_char(0) == '-' {
            1
        } else {
            0
        };
        proof {
            if start == 1 {
                assert(s.drop_first() =~= s.subrange(1, s.len() as int));
            } else {
                assert(s =~= s.subrange(0, s.len() as int));
            }
            assert(strip_sign(s) =~= s.subrange(start as int, s.len() as int));
        }
        let ghost t = s.subrange(start as int, s.len() as int);

        let mut have_seen_dot = false;
        let mut have_seen_exp = false;
        let mut exp_pos: usize = 0;
        let mut i: usize = start;
        while i < n
            invariant
                start <= i <= n,
                n == s.len(),
                t == s.subrange(start as int, s.len() as int),
                forall|j: int|
                    start <= j < i ==> is_digit(#[trigger] s[j]) || is_dot(s[j]) || is_exp(s[j]),
                have_seen_dot == exists|j: int| start <= j < i && is_dot(#[trigger] s[j]),
                have_seen_exp ==> start < exp_pos < i && is_exp(s[exp_pos as int]),
                forall|j: int|
                    start <= j < i && is_exp(#[trigger] s[j]) ==> have_seen_exp && j == exp_pos,
                forall|j: int|
                    start <= j < i && is_dot(#[trigger] s[j]) ==> j > start && (have_seen_exp
                        ==> j < exp_pos),
                forall|i1: int, j1: int|
                    start <= i1 < j1 < i ==> !(is_dot(#[trigger] s[i1]) && is_dot(
                        #[trigger] s[j1],
                    )),
            decreases n - i,
        {
            let c = input.get_char(i);
            if '0' <= c && c <= '9' {
                // Digits, OK.
            } else if (c == 'e' || c == 'E') && !have_seen_exp && i > start {
                // Exponent, OK if not the first character.
                have_seen_exp = true;
                exp_pos = i;
            } else if c == '.' && !have_seen_dot && !have_seen_exp && i > start {
                // Dot is valid if unique, not the first character and before
                // any exponent.
                have_seen_dot = true;
            } else {
                proof {
                    let bad = i - start;
                    assert(t[bad] == s[i as int]);
                    if is_dot(c) {
                        if have_seen_dot {
                            let w = choose|j: int| start <= j < i && is_dot(#[trigger] s[j]);
                            assert(is_dot(t[w - start]) && is_dot(t[bad]) && 0 <= w - start < bad);
                        } else if have_seen_exp {
                            assert(is_exp(t[exp_pos - start]) && is_dot(t[bad]) && 0 <= exp_pos
                                - start < bad);
                        } else {
                            assert(is_dot(t[bad]) && bad == 0);
                        }
                    } else if is_exp(c) {
                        if have_seen_exp {
                            assert(is_exp(t[exp_pos - start]) && is_exp(t[bad]) && 0 <= exp_pos
                                - start < bad);
                        } else {
                            assert(is_exp(t[bad]) && bad == 0);
                        }
                    } else {
                        assert(!(is_digit(t[bad]) || is_dot(t[bad]) || is_exp(t[bad])));
                    }
                    assert(!is_numeric_body(t));
                }
                return false;
            }
            i = i + 1;
        }

        if have_seen_exp && exp_pos == n - 1 {
            proof {
                let last = exp_pos - start;
                assert(is_exp(t[last]) && last == t.len() - 1);
            }
            return false;
        }

        proof {
            assert forall|i1: int| 0 <= i1 < t.len() implies is_digit(#[trigger] t[i1]) || is_dot(
                t[i1],
            ) || is_exp(t[i1]) by {
                assert(t[i1] == s[start + i1]);
            }
            assert forall|i1: int, j1: int| 0 <= i1 < j1 < t.len() implies !(is_exp(
                #[trigger] t[i1],
            ) && is_exp(#[trigger] t[j1])) by {
                assert(t[i1] == s[start + i1] && t[j1] == s[start + j1]);
            }
            assert forall|i1: int, j1: int| 0 <= i1 < j1 < t.len() implies !(is_exp(
                #[trigger] t[i1],
            ) && is_dot(#[trigger] t[j1])) by {
                assert(t[i1] == s[start + i1] && t[j1] == s[start + j1]);
            }
            assert forall|i1: int, j1: int| 0 <= i1 < j1 < t.len() implies !(is_dot(
                #[trigger] t[i1],
            ) && is_dot(#[trigger] t[j1])) by {
                assert(t[i1] == s[start + i1] && t[j1] == s[start + j1]);
            }
            assert forall|i1: int| 0 <= i1 < t.len() && is_dot(#[trigger] t[i1]) implies i1 > 0 by {
                assert(t[i1] == s[start + i1]);
            }
            assert forall|i1: int| 0 <= i1 < t.len() && is_exp(#[trigger] t[i1]) implies 0 < i1
                < t.len() - 1 by {
                assert(t[i1] == s[start + i1]);
                assert(i1 == exp_pos - start);
            }
        }
        true
    }

    /// Classify one raw string into its semantic token.
    pub fn tokenize(arg: &'a str) -> (r: Token<'a>)
        ensures
            r@ == spec_tokenize(arg@),
    {
        let n = arg.unicode_len();

        // Long flag.
        if n >= 3 && arg.get_char(0) == '-' && arg.get_char(1) == '-' {
            let name = arg.substring_char(2, n);
            return Token::Flag(Flag::Long(name));
        }

        // Numbers.
        if n >= 1 && arg.get_char(0) == '-' && Token::is_number(arg) {
            return Token::Value(arg);
        }

        // Short flag.
        if n == 2 && arg.get_char(0) == '-' && arg.get_char(1) != '-' {
            let name = arg.get_char(1);
            return Token::Flag(Flag::Short(name));
        }

        Token::Value(arg)
    }
}

/// Defines a `Lexer` that is responsible for streaming tokens from the
/// command line input.
///
/// A lexer acts like a forward iterator over an argv slice.
#[derive(Clone, Copy, Debug)]
pub struct Tokens<'a> {
    args: &'a [&'a str],
    pos: usize,
}

impl<'a> View for Tokens<'a> {
    type V = Seq<Seq<char>>;

    /// The arguments that remain to be tokenized.
    closed spec fn view(&self) -> Seq<Seq<char>> {
        let all = self.args.deep_view();
        if self.pos as int <= all.len() {
            all.skip(self.pos as int)
        } else {
            Seq::empty()
        }
    }
}

impl<'a> Tokens<'a> {
    /// Create a new lexer from the command line input.
    pub fn new(args: &'a [&'a str]) -> (r: Self)
        ensures
            r@ == args.deep_view(),
    {
        let r = Tokens { args, pos: 0 };
        proof {
            assert(r@ =~= args.deep_view());
        }
        r
    }

    /// Retrieve an iterator over the next value tokens.
    pub fn values(&self) -> (r: Values<'a>)
        ensures
            r@ == self@,
    {
        Values { args: self.args, pos: self.pos, done: false }
    }

    /// Retrieve an iterator over the next tokens.
    pub fn tokens(&self) -> (r: Self)
        ensures
            r@ == self@,
    {
        Tokens { args: self.args, pos: self.pos }
    }

    /// Classify and yield the next token, if any argument remains.
    pub fn next(&mut self) -> (r: Option<Token<'a>>)
        ensures
            old(self)@.len() == 0 ==> r is None && final(self)@ == old(self)@,
            old(self)@.len() > 0 ==> {
                &&& r matches Some(token) && token@ == spec_tokenize(old(self)@[0])
                &&& final(self)@ == old(self)@.skip(1)
            },
    {
        if self.pos >= self.args.len() {
            return None;
        }
        let arg = self.args[self.pos];
        self.pos = self.pos + 1;
        proof {
            assert(arg.deep_view() == old(self)@[0]);
            assert(final(self)@ =~= old(self)@.skip(1));
        }
        Some(Token::tokenize(arg))
    }
}

/// An iterator over value tokens, which stops at the first flag.
#[derive(Clone, Copy, Debug)]
pub struct Values<'a> {
    args: &'a [&'a str],
    pos: usize,
    done: bool,
}

impl<'a> View for Values<'a> {
    type V = Seq<Seq<char>>;

    /// The arguments that remain to be examined.
    closed spec fn view(&self) -> Seq<Seq<char>> {
        let all = self.args.deep_view();
        if self.pos as int <= all.len() {
            all.skip(self.pos as int)
        } else {
            Seq::empty()
        }
    }
}

impl<'a> Values<'a> {
    /// Create a value iterator from the given cursor.
    pub fn new(args: &'a [&'a str]) -> (r: Self)
        ensures
            r@ == args.deep_view(),
    {
        let r = Values { args, pos: 0, done: false };
        proof {
            assert(r@ =~= args.deep_view());
        }
        r
    }

    /// Yield the next argument if it is a value token; a flag yields nothing.
    pub fn next(&mut self) -> (r: Option<&'a str>)
        ensures
            old(self)@.len() == 0 ==> r is None && final(self)@ == old(self)@,
            old(self)@.len() > 0 ==> {
                &&& final(self)@ == old(self)@.skip(1)
                &&& spec_is_short_flag(old(self)@[0]) || spec_is_long_flag(old(self)@[0])
                    ==> r is None
                &&& !(spec_is_short_flag(old(self)@[0]) || spec_is_long_flag(old(self)@[0]))
                    ==> (r matches Some(value) && value@ == old(self)@[0])
            },
    {
        if self.pos >= self.args.len() {
            return None;
        }
        let arg = self.args[self.pos];
        self.pos = self.pos + 1;
        proof {
            assert(arg.deep_view() == old(self)@[0]);
            assert(self@ =~= old(self)@.skip(1));
        }
        if Token::is_flag(arg) {
            self.done = true;
            None
        } else {
            Some(arg)
        }
    }
}

} // verus!
