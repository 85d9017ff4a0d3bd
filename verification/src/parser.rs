//! A parser for collecting arguments from a token stream.

use vstd::prelude::*;

pub mod lexer;
pub mod values;

pub use values::AtMost;
pub use values::Values;

use crate::parser::lexer::spec_tokenize;
use crate::parser::lexer::Flag;
use crate::parser::lexer::FlagView;
use crate::parser::lexer::Token;
use crate::parser::lexer::TokenView;

verus! {

/// Defines the possible errors that may occur during parsing of arguments.
#[derive(Clone, Copy, Debug, PartialEq, Eq, Structural)]
pub enum Error {
    /// The argument is not defined.
    UndefinedArgument,

    /// The argument value is invalid, meaning that it cannot be converted to
    /// the destination type.
    InvalidArgument,

    /// The argument has no expected value on the command line.
    NoValueArgument,

    /// The argument value is missing, which occurs when the flag is not
    /// boolean and expects a value.
    MissingArgument,

    /// Insufficient space for parsing arguments.
    OutOfMemory,
}

/// Defines an argument on the command line.
#[derive(Clone, Copy, Debug, PartialEq)]
pub enum Arg<'a> {
    /// A named argument, which is defined by a flag, and zero or more values.
    Named(&'a str, Values<'a>),

    /// A positional argument, which is defined by its value.
    Positional(&'a str),
}

/// Mathematical model of an [`Arg`].
pub enum ArgView {
    Named(Seq<char>, Seq<Seq<char>>),
    Positional(Seq<char>),
}

impl<'a> View for Arg<'a> {
    type V = ArgView;

    open spec fn view(&self) -> ArgView {
        match self {
            Arg::Named(id, values) => ArgView::Named(id@, values@),
            Arg::Positional(value) => ArgView::Positional(value@),
        }
    }
}

impl<'a> DeepView for Arg<'a> {
    type V = ArgView;

    open spec fn deep_view(&self) -> ArgView {
        self.view()
    }
}

/// One row of the look-up table: flag identity, canonical argument id, and
/// how many value tokens the argument consumes.
pub type EntryView = (FlagView, Seq<char>, AtMost);

/// The metadata of the first table entry whose flag identity matches, if any.
pub open spec fn spec_metadata_of(entries: Seq<EntryView>, flag: FlagView) -> Option<
    (Seq<char>, AtMost),
>
    decreases entries.len(),
{
    if entries.len() == 0 {
        None
    } else if entries[0].0 == flag {
        Some((entries[0].1, entries[0].2))
    } else {
        spec_metadata_of(entries.drop_first(), flag)
    }
}

/// Argument id to metadata look-up table.
#[derive(Debug)]
pub struct ArgLookupTable<'a> {
    table: &'a [(Flag<'a>, &'a str, AtMost)],
}

impl<'a> View for ArgLookupTable<'a> {
    type V = Seq<EntryView>;

    closed spec fn view(&self) -> Seq<EntryView> {
        self.table.deep_view()
    }
}

impl<'a> ArgLookupTable<'a> {
    /// Create a new look-up table.
    pub fn new(table: &'a [(Flag<'a>, &'a str, AtMost)]) -> (r: Self)
        ensures
            r@ == table.deep_view(),
    {
        ArgLookupTable { table }
    }

    /// Look up a flag; a linear scan returns the first matching entry.
    #[verifier::loop_isolation(false)]
    pub fn metadata_of(&self, flag: &Flag<'_>) -> (r: Option<(&'a str, AtMost)>)
        ensures
            match spec_metadata_of(self@, flag@) {
                None => r is None,
                Some(meta) => r matches Some(found) && found.0@ == meta.0 && found.1 == meta.1,
            },
    {
        let mut k: usize = 0;
        proof {
            assert(self@.skip(0) =~= self@);
        }
        while k < self.table.len()
            invariant
                0 <= k <= self.table.len(),
                spec_metadata_of(self@, flag@) == spec_metadata_of(self@.skip(k as int), flag@),
            decreases self.table.len() - k,
        {
            let entry = &self.table[k];
            proof {
                assert(self@[k as int] == (entry.0@, entry.1@, entry.2));
                assert(self@.skip(k as int)[0] == self@[k as int]);
            }
            if entry.0 == *flag {
                return Some((entry.1, entry.2));
            }
            proof {
                assert(self@.skip(k as int).drop_first() =~= self@.skip(k as int + 1));
            }
            k = k + 1;
        }
        proof {
            assert(self@.skip(k as int).len() == 0);
        }
        None
    }
}

/// The values that a named argument keeps from its value run: none for
/// `Zero`, the first one for `One`, the whole run for `Many`.
pub open spec fn named_values(expected: AtMost, run: Seq<Seq<char>>) -> Seq<Seq<char>> {
    match expected {
        AtMost::Zero => Seq::empty(),
        AtMost::One => if run.len() >= 1 {
            run.take(1)
        } else {
            run
        },
        AtMost::Many => run,
    }
}

/// The values of a run that the named argument does not keep; each becomes a
/// positional argument.
pub open spec fn leftover_values(expected: AtMost, run: Seq<Seq<char>>) -> Seq<Seq<char>> {
    match expected {
        AtMost::Zero => run,
        AtMost::One => if run.len() >= 1 {
            run.skip(1)
        } else {
            run
        },
        AtMost::Many => Seq::empty(),
    }
}

/// The given values, each as a positional argument.
pub open spec fn positionals(run: Seq<Seq<char>>) -> Seq<ArgView> {
    run.map_values(|v: Seq<char>| ArgView::Positional(v))
}

/// The arguments emitted when the value run of a pending flag is closed: the
/// named argument itself, then every leftover value as a positional argument.
pub open spec fn close_run(id: Seq<char>, expected: AtMost, run: Seq<Seq<char>>) -> Seq<ArgView> {
    seq![ArgView::Named(id, named_values(expected, run))] + positionals(
        leftover_values(expected, run),
    )
}

/// Close a pending flag by its table metadata. Grouping runs only after
/// validation, so the look-up is assumed to succeed.
pub open spec fn close_pending(table: Seq<EntryView>, flag: FlagView, run: Seq<Seq<char>>) -> Seq<
    ArgView,
> {
    let meta = spec_metadata_of(table, flag)->Some_0;
    close_run(meta.0, meta.1, run)
}

/// One left-to-right fold over the classified argv tail that starts at `i`,
/// carrying an optional pending flag together with the start of its value
/// run: a new flag closes the pending run, a value extends it, and a value
/// with no pending flag is positional.
pub open spec fn spec_group(
    argv: Seq<Seq<char>>,
    table: Seq<EntryView>,
    i: int,
    pending: Option<(FlagView, int)>,
) -> Seq<ArgView>
    decreases argv.len() - i,
{
    if 0 <= i < argv.len() {
        match (pending, spec_tokenize(argv[i])) {
            (Some((flag, start)), TokenView::Flag(next)) => close_pending(
                table,
                flag,
                argv.subrange(start, i),
            ) + spec_group(argv, table, i + 1, Some((next, i + 1))),
            (Some(_), TokenView::Value(_)) => spec_group(argv, table, i + 1, pending),
            (None, TokenView::Flag(next)) => spec_group(argv, table, i + 1, Some((next, i + 1))),
            (None, TokenView::Value(value)) => seq![ArgView::Positional(value)] + spec_group(
                argv,
                table,
                i + 1,
                None,
            ),
        }
    } else {
        match pending {
            Some((flag, start)) => close_pending(
                table,
                flag,
                argv.subrange(start, argv.len() as int),
            ),
            None => Seq::empty(),
        }
    }
}

/// The arguments that one parse of `argv` against `table` produces.
pub open spec fn spec_parsed(argv: Seq<Seq<char>>, table: Seq<EntryView>) -> Seq<ArgView> {
    spec_group(argv, table, 0, None)
}

/// Whether every argv element that classifies as a flag has a table entry.
pub open spec fn all_flags_defined(argv: Seq<Seq<char>>, table: Seq<EntryView>) -> bool {
    forall|i: int|
        0 <= i < argv.len() ==> match #[trigger] spec_tokenize(argv[i]) {
            TokenView::Flag(flag) => spec_metadata_of(table, flag) is Some,
            TokenView::Value(_) => true,
        }
}

/// The error that a parse reports, if any: the capacity check runs first,
/// then the scan for undefined flags.
pub open spec fn spec_parse_error(
    argv: Seq<Seq<char>>,
    table: Seq<EntryView>,
    capacity: int,
) -> Option<Error> {
    if argv.len() > capacity {
        Some(Error::OutOfMemory)
    } else if !all_flags_defined(argv, table) {
        Some(Error::UndefinedArgument)
    } else {
        None
    }
}

/// Capacity boundary: argv that fits the capacity and names only defined
/// flags parses, while argv longer than the capacity is rejected with
/// `OutOfMemory`, whatever flags it holds.
pub proof fn lemma_capacity_boundary(argv: Seq<Seq<char>>, table: Seq<EntryView>, capacity: int)
    ensures
        argv.len() <= capacity && all_flags_defined(argv, table) ==> spec_parse_error(
            argv,
            table,
            capacity,
        ) is None,
        argv.len() > capacity ==> spec_parse_error(argv, table, capacity) == Some(
            Error::OutOfMemory,
        ),
{
}

/// Any flag token absent from the look-up table fails the whole parse with
/// `UndefinedArgument`; `try_parse_from` then returns no store at all, so no
/// argument of a failing parse can ever be observed.
pub proof fn lemma_undefined_flag_rejected(
    argv: Seq<Seq<char>>,
    table: Seq<EntryView>,
    capacity: int,
    i: int,
)
    requires
        0 <= i < argv.len(),
        argv.len() <= capacity,
        spec_tokenize(argv[i]) matches TokenView::Flag(flag) && spec_metadata_of(table, flag)
            is None,
    ensures
        spec_parse_error(argv, table, capacity) == Some(Error::UndefinedArgument),
{
    assert(!all_flags_defined(argv, table)) by {
        if all_flags_defined(argv, table) {
            assert(match spec_tokenize(argv[i]) {
                TokenView::Flag(flag) => spec_metadata_of(table, flag) is Some,
                TokenView::Value(_) => true,
            });
        }
    }
}

/// The model of an optional pending flag with the start of its value run.
pub open spec fn pending_view<'a>(pending: Option<(Flag<'a>, usize)>) -> Option<(FlagView, int)> {
    match pending {
        Some((flag, start)) => Some((flag@, start as int)),
        None => None,
    }
}

/// Closing a run emits at most one argument more than the run holds.
proof fn lemma_close_run_len(id: Seq<char>, expected: AtMost, run: Seq<Seq<char>>)
    ensures
        close_run(id, expected, run).len() <= 1 + run.len(),
{
}

/// The fold emits at most one argument per argv element: each token yields at
/// most one named or positional argument.
proof fn lemma_group_len(
    argv: Seq<Seq<char>>,
    table: Seq<EntryView>,
    i: int,
    pending: Option<(FlagView, int)>,
)
    requires
        0 <= i <= argv.len(),
        pending matches Some(p) ==> 0 <= p.1 <= i,
    ensures
        spec_group(argv, table, i, pending).len() <= argv.len() - i + (match pending {
            Some(p) => 1 + (i - p.1),
            None => 0int,
        }),
    decreases argv.len() - i,
{
    if i < argv.len() {
        match (pending, spec_tokenize(argv[i])) {
            (Some((flag, start)), TokenView::Flag(next)) => {
                lemma_close_run_len(
                    spec_metadata_of(table, flag)->Some_0.0,
                    spec_metadata_of(table, flag)->Some_0.1,
                    argv.subrange(start, i),
                );
                lemma_group_len(argv, table, i + 1, Some((next, i + 1)));
            },
            (Some(_), TokenView::Value(_)) => {
                lemma_group_len(argv, table, i + 1, pending);
            },
            (None, TokenView::Flag(next)) => {
                lemma_group_len(argv, table, i + 1, Some((next, i + 1)));
            },
            (None, TokenView::Value(_)) => {
                lemma_group_len(argv, table, i + 1, None);
            },
        }
    } else {
        match pending {
            Some((flag, start)) => {
                lemma_close_run_len(
                    spec_metadata_of(table, flag)->Some_0.0,
                    spec_metadata_of(table, flag)->Some_0.1,
                    argv.subrange(start, argv.len() as int),
                );
            },
            None => {},
        }
    }
}

/// The values of the first named argument with the given canonical id, if
/// any such argument exists.
pub open spec fn spec_find_named(args: Seq<ArgView>, id: Seq<char>) -> Option<Seq<Seq<char>>>
    decreases args.len(),
{
    if args.len() == 0 {
        None
    } else {
        match args[0] {
            ArgView::Named(name, values) => if name == id {
                Some(values)
            } else {
                spec_find_named(args.drop_first(), id)
            },
            ArgView::Positional(_) => spec_find_named(args.drop_first(), id),
        }
    }
}

/// Relies on `str::parse`: the outcome is whatever `T`'s `FromStr`
/// implementation decides for this text; nothing further is assumed of it.
#[verifier::external_body]
fn parse_value<T: core::str::FromStr>(value: &str) -> (r: Option<T>) {
    value.parse::<T>().ok()
}

/// Relies on `FromIterator::from_iter` (via `Iterator::collect`): builds the
/// collection from the parsed values, in order. A bounded collection may
/// panic when the items exceed its capacity, as its implementation decides.
#[verifier::external_body]
fn collect_values<T, B: FromIterator<T>>(values: Vec<T>) -> (r: B) {
    values.into_iter().collect()
}

/// Defines the result of argument parsing. This is a simple key-value store
/// that offers a look-up over parsed arguments.
///
/// The store never holds more than `CAPACITY` arguments.
#[derive(Debug)]
pub struct ParsedArgs<'a, const CAPACITY: usize> {
    args: Vec<Arg<'a>>,
}

impl<'a, const CAPACITY: usize> View for ParsedArgs<'a, CAPACITY> {
    type V = Seq<ArgView>;

    closed spec fn view(&self) -> Seq<ArgView> {
        self.args.deep_view()
    }
}

impl<'a, const CAPACITY: usize> Default for ParsedArgs<'a, CAPACITY> {
    /// An empty store.
    fn default() -> (r: Self)
        ensures
            r@ == Seq::<ArgView>::empty(),
    {
        let r = ParsedArgs { args: Vec::new() };
        proof {
            assert(r@ =~= Seq::<ArgView>::empty());
        }
        r
    }
}

impl<'a, const CAPACITY: usize> ParsedArgs<'a, CAPACITY> {
    /// Parse the command line input from a token stream. The result is the
    /// set of found arguments.
    ///
    /// The caller must hand in arguments that fit the capacity and whose
    /// flags are all defined; `try_parse_from` reports such failures instead.
    pub fn parse_from(argv: &'a [&'a str], table: &ArgLookupTable<'a>) -> (r: Self)
        requires
            spec_parse_error(argv.deep_view(), table@, CAPACITY as int) is None,
        ensures
            r@ == spec_parsed(argv.deep_view(), table@),
            r@.len() <= CAPACITY,
    {
        match Self::try_parse_from(argv, table) {
            Ok(parsed) => parsed,
            Err(_) => {
                proof {
                    assert(false);
                }
                Self::default()
            },
        }
    }

    /// Try to parse the input arguments.
    ///
    /// Validation runs fully before grouping: if the input exceeds the
    /// capacity or holds a flag that the table does not define, the parse
    /// fails as a whole and no store is produced.
    #[verifier::loop_isolation(false)]
    pub fn try_parse_from(argv: &'a [&'a str], table: &ArgLookupTable<'a>) -> (r: Result<
        Self,
        Error,
    >)
        ensures
            match spec_parse_error(argv.deep_view(), table@, CAPACITY as int) {
                Some(e) => r is Err && r->Err_0 == e,
                None => r is Ok && r->Ok_0@ == spec_parsed(argv.deep_view(), table@)
                    && r->Ok_0@.len() <= CAPACITY,
            },
    {
        let ghost all = argv.deep_view();
        let ghost entries = table@;

        // Some initial checks before parsing starts.
        if let Err(e) = Self::check_capacity(argv) {
            return Err(e);
        }
        if let Err(e) = Self::check_undefined_argument(argv, table) {
            return Err(e);
        }

        let mut args: Vec<Arg<'a>> = Vec::new();
        let mut pending: Option<(Flag<'a>, usize)> = None;
        let mut i: usize = 0;

        proof {
            assert(args.deep_view() =~= Seq::<ArgView>::empty());
        }

        while i < argv.len()
            invariant
                i <= argv.len(),
                pending matches Some(p) ==> (p.1 <= i && spec_metadata_of(entries, p.0@) is Some),
                args.deep_view() + spec_group(all, entries, i as int, pending_view(pending))
                    == spec_parsed(all, entries),
            decreases argv.len() - i,
        {
            let arg = argv[i];
            proof {
                assert(arg.deep_view() == all[i as int]);
            }
            let token = Token::tokenize(arg);
            match (pending, token) {
                // A flag was pending and a new flag occurs: close the pending
                // run, then go on collecting values of the new flag.
                (Some((flag, start)), Token::Flag(next)) => {
                    proof {
                        assert(spec_group(all, entries, i as int, pending_view(pending))
                            == close_pending(entries, flag@, all.subrange(start as int, i as int))
                            + spec_group(
                            all,
                            entries,
                            i as int + 1,
                            Some((next@, i as int + 1)),
                        ));
                    }
                    let ghost pre = args.deep_view();
                    let meta = table.metadata_of(&flag);
                    let (name, expected) = meta.unwrap();
                    let run = &argv[start..i];
                    proof {
                        assert(run.deep_view() =~= all.subrange(start as int, i as int));
                    }
                    Self::close_and_push(&mut args, name, expected, run);
                    proof {
                        assert(spec_tokenize(all[i as int]) == TokenView::Flag(next@));
                        assert(args.deep_view() + spec_group(
                            all,
                            entries,
                            i as int + 1,
                            Some((next@, i as int + 1)),
                        ) =~= pre + spec_group(all, entries, i as int, pending_view(pending)));
                    }
                    pending = Some((next, i + 1));
                },
                // A flag was pending and this value belongs to it: the run
                // grows implicitly.
                (Some(_), Token::Value(_)) => {},
                // No flag was pending and a new one occurs: start collecting
                // its values.
                (None, Token::Flag(next)) => {
                    proof {
                        assert(spec_tokenize(all[i as int]) == TokenView::Flag(next@));
                    }
                    pending = Some((next, i + 1));
                },
                // No flag was pending: this value is a positional argument.
                (None, Token::Value(value)) => {
                    proof {
                        assert(spec_group(all, entries, i as int, None) == seq![
                            ArgView::Positional(all[i as int]),
                        ] + spec_group(all, entries, i as int + 1, None));
                    }
                    let ghost pre = args.deep_view();
                    args.push(Arg::Positional(value));
                    proof {
                        assert(args.deep_view() =~= pre + seq![ArgView::Positional(all[i as int])]);
                        assert(args.deep_view() + spec_group(all, entries, i as int + 1, None)
                            =~= pre + spec_group(all, entries, i as int, None));
                    }
                },
            }
            i = i + 1;
        }

        if let Some((flag, start)) = pending {
            let meta = table.metadata_of(&flag);
            let (name, expected) = meta.unwrap();
            let run = &argv[start..argv.len()];
            proof {
                assert(run.deep_view() =~= all.subrange(start as int, all.len() as int));
            }
            Self::close_and_push(&mut args, name, expected, run);
        }

        proof {
            assert(args.deep_view() =~= spec_parsed(all, entries));
            lemma_group_len(all, entries, 0, None);
        }

        Ok(ParsedArgs { args })
    }

    /// Close one value run: push the named argument, then every leftover
    /// value as a positional argument, in order.
    #[verifier::loop_isolation(false)]
    fn close_and_push(args: &mut Vec<Arg<'a>>, name: &'a str, expected: AtMost, run: &'a [&'a str])
        ensures
            final(args).deep_view() == old(args).deep_view() + close_run(
                name@,
                expected,
                run.deep_view(),
            ),
    {
        let (rest, arg) = Self::parse_arg_values(run, name, expected);
        let ghost named = arg@;
        args.push(arg);
        let mut k: usize = 0;
        proof {
            assert(positionals(rest@.take(0)) =~= Seq::<ArgView>::empty());
            assert(args.deep_view() =~= old(args).deep_view() + seq![named] + positionals(
                rest@.take(0),
            ));
        }
        while k < rest.len()
            invariant
                k <= rest@.len(),
                args.deep_view() =~= old(args).deep_view() + seq![named] + positionals(
                    rest@.take(k as int),
                ),
            decreases rest@.len() - k,
        {
            let value = rest.get(k);
            let ghost pre = args.deep_view();
            args.push(Arg::Positional(value));
            k = k + 1;
            proof {
                assert(args.deep_view() =~= pre.push(ArgView::Positional(rest@[k as int - 1])));
                assert(positionals(rest@.take(k as int)) =~= positionals(
                    rest@.take(k as int - 1),
                ).push(ArgView::Positional(rest@[k as int - 1])));
                assert(args.deep_view() =~= old(args).deep_view() + seq![named] + positionals(
                    rest@.take(k as int),
                ));
            }
        }
        proof {
            assert(rest@.take(rest@.len() as int) =~= rest@);
            assert(args.deep_view() =~= old(args).deep_view() + close_run(
                name@,
                expected,
                run.deep_view(),
            ));
        }
    }

    /// Split a value run between the named argument and the leftover values.
    pub fn parse_arg_values<'b>(argv: &'b [&'b str], name: &'b str, expected: AtMost) -> (r: (
        Values<'b>,
        Arg<'b>,
    ))
        ensures
            r.1@ == ArgView::Named(name@, named_values(expected, argv.deep_view())),
            r.0@ == leftover_values(expected, argv.deep_view()),
    {
        match expected {
            AtMost::Zero => (Values::new(argv), Arg::Named(name, Values::empty())),
            AtMost::One => {
                let rest: &'b [&'b str] = if argv.len() <= 1 {
                    &[]
                } else {
                    &argv[1..argv.len()]
                };
                let arg: &'b [&'b str] = if argv.is_empty() {
                    &[]
                } else {
                    &argv[0..1]
                };
                proof {
                    if argv.deep_view().len() >= 1 {
                        assert(rest.deep_view() =~= leftover_values(expected, argv.deep_view()));
                        assert(arg.deep_view() =~= named_values(expected, argv.deep_view()));
                    } else {
                        assert(rest.deep_view() =~= argv.deep_view());
                        assert(arg.deep_view() =~= argv.deep_view());
                    }
                }
                (Values::new(rest), Arg::Named(name, Values::new(arg)))
            },
            AtMost::Many => (Values::empty(), Arg::Named(name, Values::new(argv))),
        }
    }

    /// Check if there exists an argument with the given id.
    pub fn contains(&self, id: &str) -> (r: bool)
        ensures
            r == (spec_find_named(self@, id@) is Some),
    {
        self.values_of(id).is_some()
    }

    /// The buffered values of the first named argument with the given id.
    #[verifier::loop_isolation(false)]
    pub fn values_of(&self, id: &str) -> (r: Option<Values<'a>>)
        ensures
            match spec_find_named(self@, id@) {
                None => r is None,
                Some(vs) => r matches Some(values) && values@ == vs,
            },
    {
        let ghost model = self@;
        let mut k: usize = 0;
        proof {
            assert(model.skip(0) =~= model);
        }
        while k < self.args.len()
            invariant
                k <= self.args.len(),
                spec_find_named(model, id@) == spec_find_named(model.skip(k as int), id@),
            decreases self.args.len() - k,
        {
            proof {
                assert(self.args@[k as int].deep_view() == model[k as int]);
                assert(model.skip(k as int)[0] == model[k as int]);
                assert(model.skip(k as int).drop_first() =~= model.skip(k as int + 1));
            }
            let arg = self.args[k];
            match arg {
                Arg::Named(name, values) => {
                    if crate::strings::str_eq(name, id) {
                        return Some(values);
                    }
                },
                Arg::Positional(_) => {},
            }
            k = k + 1;
        }
        proof {
            assert(model.skip(k as int).len() == 0);
        }
        None
    }

    /// Try to get and parse the argument value if any.
    ///
    /// The outer option reports whether the argument is present at all, the
    /// inner one whether a value was supplied. A single buffered value is
    /// handed to `T`'s parser; more than one fails, whatever the declared
    /// cardinality says.
    pub fn try_get_one<T: core::str::FromStr>(&self, id: &str) -> (r: Result<
        Option<Option<T>>,
        Error,
    >)
        ensures
            spec_find_named(self@, id@) is None ==> r == Ok::<Option<Option<T>>, Error>(None),
            spec_find_named(self@, id@) matches Some(vs) ==> {
                &&& vs.len() == 0 ==> r == Ok::<Option<Option<T>>, Error>(Some(None))
                &&& vs.len() > 1 ==> r == Err::<Option<Option<T>>, Error>(Error::InvalidArgument)
                &&& vs.len() == 1 ==> (r matches Ok(found) ==> (found matches Some(value) && value
                    is Some)) && (r is Err ==> r->Err_0 == Error::InvalidArgument)
            },
    {
        match self.values_of(id) {
            // The argument has not been found.
            None => Ok(None),
            Some(values) => {
                if values.is_empty() {
                    // The argument has no value.
                    Ok(Some(None))
                } else if values.len() > 1 {
                    // The argument has more than one value.
                    Err(Error::InvalidArgument)
                } else {
                    match parse_value::<T>(values.get(0)) {
                        // The argument is present and has a value.
                        Some(value) => Ok(Some(Some(value))),
                        // The value cannot be parsed to the target type `T`.
                        None => Err(Error::InvalidArgument),
                    }
                }
            },
        }
    }

    /// Try to get and parse every buffered value of the argument, if any. The
    /// result collection is built from an iterator, in argv order.
    ///
    /// The collection type decides what happens when it cannot hold every
    /// parsed value: a bounded collection may abort the process, as its
    /// `FromIterator` implementation chooses. The caller must supply a
    /// collection able to hold all buffered values to avoid that.
    #[verifier::loop_isolation(false)]
    pub fn try_get_many<B: FromIterator<T>, T: core::str::FromStr>(&self, id: &str) -> (r: Result<
        Option<B>,
        Error,
    >)
        ensures
            spec_find_named(self@, id@) is None ==> r is Ok && r->Ok_0 is None,
            spec_find_named(self@, id@) is Some ==> (r is Ok ==> r->Ok_0 is Some) && (r is Err
                ==> r->Err_0 == Error::InvalidArgument),
            spec_find_named(self@, id@) matches Some(vs) && vs.len() == 0 ==> r is Ok,
    {
        match self.values_of(id) {
            // The argument has not been found.
            None => Ok(None),
            Some(values) => {
                let mut parsed: Vec<T> = Vec::new();
                let mut k: usize = 0;
                while k < values.len()
                    invariant
                        k <= values@.len(),
                    decreases values@.len() - k,
                {
                    match parse_value::<T>(values.get(k)) {
                        Some(value) => parsed.push(value),
                        // The value cannot be parsed to the target type `T`.
                        None => {
                            return Err(Error::InvalidArgument);
                        },
                    }
                    k = k + 1;
                }
                Ok(Some(collect_values(parsed)))
            },
        }
    }

    fn check_capacity(argv: &[&str]) -> (r: Result<(), Error>)
        ensures
            r is Ok <==> argv.deep_view().len() <= CAPACITY,
            r is Err ==> r->Err_0 == Error::OutOfMemory,
    {
        if CAPACITY < argv.len() {
            return Err(Error::OutOfMemory);
        }
        Ok(())
    }

    #[verifier::loop_isolation(false)]
    fn check_undefined_argument(argv: &[&str], table: &ArgLookupTable<'_>) -> (r: Result<
        (),
        Error,
    >)
        ensures
            r is Ok <==> all_flags_defined(argv.deep_view(), table@),
            r is Err ==> r->Err_0 == Error::UndefinedArgument,
    {
        let ghost all = argv.deep_view();
        let mut i: usize = 0;
        while i < argv.len()
            invariant
                i <= argv.len(),
                forall|j: int|
                    0 <= j < i ==> match #[trigger] spec_tokenize(all[j]) {
                        TokenView::Flag(flag) => spec_metadata_of(table@, flag) is Some,
                        TokenView::Value(_) => true,
                    },
            decreases argv.len() - i,
        {
            let arg = argv[i];
            proof {
                assert(arg.deep_view() == all[i as int]);
            }
            match Token::tokenize(arg) {
                Token::Flag(flag) => {
                    if table.metadata_of(&flag).is_none() {
                        proof {
                            assert(spec_tokenize(all[i as int]) == TokenView::Flag(flag@));
                            assert(!all_flags_defined(all, table@));
                        }
                        return Err(Error::UndefinedArgument);
                    }
                },
                Token::Value(_) => {},
            }
            i = i + 1;
        }
        Ok(())
    }
}

} // verus!
