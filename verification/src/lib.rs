//! `noshell`, a no-allocation argument parser for constrained targets.
//!
//! The crate turns an argv-like array of string slices (or a single raw
//! command line) into a bounded, typed collection of named and positional
//! arguments, without copying any argument text.

use vstd::prelude::*;

pub mod lexer;
pub mod parser;
pub mod schema;

mod strings;

verus! {

/// Top-level error for users of the crate.
#[derive(Debug, PartialEq, Eq)]
pub enum Error {
    /// An error coming from the parsing of arguments.
    Parser(crate::parser::Error),

    /// Command not found.
    CommandNotFound,

    /// Invalid utf8 string.
    Utf8,

    /// Unknown error, for development only.
    Unknown,
}

impl From<crate::parser::Error> for Error {
    fn from(err: crate::parser::Error) -> (r: Self) {
        Error::Parser(err)
    }
}

impl vstd::std_specs::convert::FromSpecImpl<crate::parser::Error> for Error {
    open spec fn obeys_from_spec() -> bool {
        true
    }

    open spec fn from_spec(err: crate::parser::Error) -> Self {
        Error::Parser(err)
    }
}

/// Whether the character keeps its meaning only when escaped.
pub open spec fn is_special(c: char) -> bool {
    c == '$' || c == '"' || c == '\\'
}

/// One backslash-unescaping pass over the text, starting in the given escape
/// state: an escaped special character loses its backslash, a
/// backslash-newline pair disappears, any other escaped character keeps its
/// backslash, and a trailing lone backslash is dropped.
pub open spec fn spec_unescape_from(s: Seq<char>, escaped: bool) -> Seq<char>
    decreases s.len(),
{
    if s.len() == 0 {
        Seq::empty()
    } else {
        let c = s[0];
        let rest = s.drop_first();
        if escaped {
            if is_special(c) {
                seq![c] + spec_unescape_from(rest, false)
            } else if c == '\n' {
                spec_unescape_from(rest, false)
            } else {
                seq!['\\', c] + spec_unescape_from(rest, false)
            }
        } else {
            if c == '\\' {
                spec_unescape_from(rest, true)
            } else {
                seq![c] + spec_unescape_from(rest, false)
            }
        }
    }
}

/// The text with its escape sequences resolved.
pub open spec fn spec_unescape(s: Seq<char>) -> Seq<char> {
    spec_unescape_from(s, false)
}

/// The escape state after reading the text in the given starting state.
pub open spec fn escape_pending(s: Seq<char>, escaped: bool) -> bool
    decreases s.len(),
{
    if s.len() == 0 {
        escaped
    } else {
        let c = s[0];
        let rest = s.drop_first();
        if escaped {
            escape_pending(rest, false)
        } else if c == '\\' {
            escape_pending(rest, true)
        } else {
            escape_pending(rest, false)
        }
    }
}

/// Unescaping distributes over concatenation, threading the escape state.
pub proof fn lemma_unescape_concat(a: Seq<char>, b: Seq<char>, escaped: bool)
    ensures
        spec_unescape_from(a + b, escaped) == spec_unescape_from(a, escaped) + spec_unescape_from(
            b,
            escape_pending(a, escaped),
        ),
    decreases a.len(),
{
    if a.len() == 0 {
        assert(a + b =~= b);
        assert(spec_unescape_from(a, escaped) + spec_unescape_from(b, escaped) =~=
            spec_unescape_from(b, escaped));
    } else {
        assert((a + b)[0] == a[0]);
        assert((a + b).drop_first() =~= a.drop_first() + b);
        lemma_unescape_concat(a.drop_first(), b, if escaped {
            false
        } else {
            a[0] == '\\'
        });
        assert(spec_unescape_from(a + b, escaped) =~= spec_unescape_from(a, escaped)
            + spec_unescape_from(b, escape_pending(a, escaped)));
    }
}

/// A backslash before `$`, `"` or `\` escapes it: the backslash disappears
/// and the character stands alone.
pub proof fn lemma_unescape_escaped_special(c: char, rest: Seq<char>)
    requires
        is_special(c),
    ensures
        spec_unescape(seq!['\\', c] + rest) == seq![c] + spec_unescape(rest),
{
    reveal_with_fuel(spec_unescape_from, 3);
    let s = seq!['\\', c] + rest;
    assert(s[0] == '\\');
    assert(s.drop_first() =~= seq![c] + rest);
    assert((seq![c] + rest)[0] == c);
    assert((seq![c] + rest).drop_first() =~= rest);
    assert(spec_unescape(s) =~= seq![c] + spec_unescape(rest));
}

/// A backslash before an ordinary character is kept as written.
pub proof fn lemma_unescape_escaped_other(c: char, rest: Seq<char>)
    requires
        !is_special(c),
        c != '\n',
    ensures
        spec_unescape(seq!['\\', c] + rest) == seq!['\\', c] + spec_unescape(rest),
{
    reveal_with_fuel(spec_unescape_from, 3);
    let s = seq!['\\', c] + rest;
    assert(s[0] == '\\');
    assert(s.drop_first() =~= seq![c] + rest);
    assert((seq![c] + rest)[0] == c);
    assert((seq![c] + rest).drop_first() =~= rest);
    assert(spec_unescape(s) =~= seq!['\\', c] + spec_unescape(rest));
}

/// A backslash immediately followed by a newline is dropped together with
/// the newline, wherever the pair stands outside another escape.
pub proof fn lemma_unescape_line_continuation(a: Seq<char>, b: Seq<char>)
    requires
        !escape_pending(a, false),
    ensures
        spec_unescape(a + (seq!['\\', '\n'] + b)) == spec_unescape(a + b),
{
    reveal_with_fuel(spec_unescape_from, 4);
    reveal_with_fuel(escape_pending, 4);
    let pair = seq!['\\', '\n'];
    lemma_unescape_concat(a, pair + b, false);
    lemma_unescape_concat(pair, b, false);
    lemma_unescape_concat(a, b, false);
    assert(pair[0] == '\\');
    assert(pair.drop_first() =~= seq!['\n']);
    assert(seq!['\n'][0] == '\n');
    assert(seq!['\n'].drop_first() =~= Seq::<char>::empty());
    assert(spec_unescape_from(pair, false) =~= Seq::<char>::empty());
    assert(escape_pending(pair, false) == false);
    assert(spec_unescape_from(pair + b, false) =~= spec_unescape_from(b, false));
    assert(spec_unescape(a + (pair + b)) =~= spec_unescape(a + b));
}

/// Unescape special characters in the input string.
///
/// The output accumulates into an owned string and keeps at most `SIZE`
/// characters: once that many have been written, the rest of the result is
/// dropped.
#[verifier::loop_isolation(false)]
pub fn unescape<const SIZE: usize>(input: &str) -> (r: String)
    ensures
        spec_unescape(input@).len() <= SIZE ==> r@ == spec_unescape(input@),
        spec_unescape(input@).len() > SIZE ==> r@ == spec_unescape(input@).take(SIZE as int),
{
    let ghost s = input@;
    let n = input.unicode_len();
    let mut acc = String::new();
    let mut count: usize = 0;
    let mut escaped = false;
    let mut i: usize = 0;

    let ghost full = spec_unescape(s);
    let ghost mut out = Seq::<char>::empty();

    proof {
        assert(s.skip(0) =~= s);
        assert(out + spec_unescape_from(s.skip(0), false) =~= full);
    }

    while i < n
        invariant
            i <= n,
            n == s.len(),
            out + spec_unescape_from(s.skip(i as int), escaped) == full,
            count == acc@.len(),
            count <= SIZE,
            acc@ == if out.len() <= SIZE {
                out
            } else {
                out.take(SIZE as int)
            },
            count == if out.len() <= SIZE {
                out.len() as int
            } else {
                SIZE as int
            },
        decreases n - i,
    {
        let c = input.get_char(i);
        proof {
            assert(s.skip(i as int)[0] == s[i as int]);
            assert(s.skip(i as int).drop_first() =~= s.skip(i as int + 1));
        }
        if escaped {
            if c == '$' || c == '"' || c == '\\' {
                // The escaped character is special: consume it unescaped.
                let ghost pre = out;
                proof {
                    out = pre.push(c);
                }
                if count < SIZE {
                    crate::strings::push_char(&mut acc, c);
                    count = count + 1;
                }
                proof {
                    assert(pre + (seq![c] + spec_unescape_from(s.skip(i as int + 1), false)) =~= out
                        + spec_unescape_from(s.skip(i as int + 1), false));
                    if out.len() > SIZE {
                        assert(acc@ =~= out.take(SIZE as int));
                    }
                }
                escaped = false;
            } else if c == '\n' {
                // A newline preceded by a backslash: discard both.
                escaped = false;
            } else {
                // The escaped character is not special: keep it escaped.
                let ghost pre = out;
                proof {
                    out = pre.push('\\').push(c);
                }
                if count < SIZE {
                    crate::strings::push_char(&mut acc, '\\');
                    count = count + 1;
                }
                if count < SIZE {
                    crate::strings::push_char(&mut acc, c);
                    count = count + 1;
                }
                proof {
                    assert(pre + (seq!['\\', c] + spec_unescape_from(s.skip(i as int + 1), false))
                        =~= out + spec_unescape_from(s.skip(i as int + 1), false));
                    if out.len() <= SIZE {
                        assert(acc@ =~= out);
                    } else {
                        assert(acc@ =~= out.take(SIZE as int));
                    }
                }
                escaped = false;
            }
        } else {
            if c != '\\' {
                // Not a backslash: consume the character as it stands.
                let ghost pre = out;
                proof {
                    out = pre.push(c);
                }
                if count < SIZE {
                    crate::strings::push_char(&mut acc, c);
                    count = count + 1;
                }
                proof {
                    assert(pre + (seq![c] + spec_unescape_from(s.skip(i as int + 1), false)) =~= out
                        + spec_unescape_from(s.skip(i as int + 1), false));
                    if out.len() > SIZE {
                        assert(acc@ =~= out.take(SIZE as int));
                    }
                }
            } else {
                // A backslash: discard it but keep memory of it.
                escaped = true;
            }
        }
        i = i + 1;
    }

    proof {
        assert(s.skip(n as int).len() == 0);
        assert(out =~= full);
        if full.len() > SIZE {
            assert(acc@ =~= full.take(SIZE as int));
        }
    }
    acc
}

} // verus!
