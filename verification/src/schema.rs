//! Programmatic registration of arguments.
//!
//! Each field of an argument record declares at most one short and one long
//! flag spelling together with its shape; the table builder turns the
//! declarations into look-up rows, gives a field with no spelling a long
//! flag named after it, and rejects duplicate spellings across fields.

use vstd::prelude::*;

use crate::parser::lexer::Flag;
use crate::parser::lexer::FlagView;
use crate::parser::AtMost;
use crate::parser::EntryView;

verus! {

/// The shape of a record field that receives argument values.
#[derive(Clone, Copy, Debug, PartialEq, Eq, Structural)]
pub enum ArgShape {
    /// A required single value.
    Scalar,

    /// An optional argument with a required value.
    OptionScalar,

    /// An optional argument with an optional value.
    OptionOptionScalar,

    /// A required non-empty sequence of values.
    List,

    /// An optional non-empty sequence of values.
    OptionList,
}

/// The cardinality that a field shape declares: scalar shapes consume one
/// value token, sequence shapes consume every contiguous value token.
pub open spec fn spec_at_most_of(shape: ArgShape) -> AtMost {
    match shape {
        ArgShape::Scalar => AtMost::One,
        ArgShape::OptionScalar => AtMost::One,
        ArgShape::OptionOptionScalar => AtMost::One,
        ArgShape::List => AtMost::Many,
        ArgShape::OptionList => AtMost::Many,
    }
}

/// Map a field shape to the cardinality of its argument.
pub fn at_most_of(shape: ArgShape) -> (r: AtMost)
    ensures
        r == spec_at_most_of(shape),
{
    match shape {
        ArgShape::Scalar => AtMost::One,
        ArgShape::OptionScalar => AtMost::One,
        ArgShape::OptionOptionScalar => AtMost::One,
        ArgShape::List => AtMost::Many,
        ArgShape::OptionList => AtMost::Many,
    }
}

/// One declared argument: a canonical id, the optional flag spellings, and
/// the field shape.
#[derive(Clone, Copy, Debug)]
pub struct ArgSpec<'a> {
    /// The canonical argument id (the field's name).
    pub name: &'a str,

    /// The short flag spelling, if the field declares one.
    pub short: Option<char>,

    /// The long flag spelling, if the field declares one.
    pub long: Option<&'a str>,

    /// The field shape.
    pub shape: ArgShape,
}

/// Mathematical model of an [`ArgSpec`].
pub struct ArgSpecView {
    pub name: Seq<char>,
    pub short: Option<char>,
    pub long: Option<Seq<char>>,
    pub shape: ArgShape,
}

impl<'a> View for ArgSpec<'a> {
    type V = ArgSpecView;

    open spec fn view(&self) -> ArgSpecView {
        ArgSpecView {
            name: self.name@,
            short: self.short,
            long: match self.long {
                Some(long) => Some(long@),
                None => None,
            },
            shape: self.shape,
        }
    }
}

impl<'a> DeepView for ArgSpec<'a> {
    type V = ArgSpecView;

    open spec fn deep_view(&self) -> ArgSpecView {
        self.view()
    }
}

/// The table rows that one declaration contributes: its short spelling, then
/// its long spelling; a declaration with neither contributes one long flag
/// named after the field.
pub open spec fn spec_entries_of(a: ArgSpecView) -> Seq<EntryView> {
    let expected = spec_at_most_of(a.shape);
    if a.short is Some && a.long is Some {
        seq![
            (FlagView::Short(a.short->Some_0), a.name, expected),
            (FlagView::Long(a.long->Some_0), a.name, expected),
        ]
    } else if a.short is Some {
        seq![(FlagView::Short(a.short->Some_0), a.name, expected)]
    } else if a.long is Some {
        seq![(FlagView::Long(a.long->Some_0), a.name, expected)]
    } else {
        seq![(FlagView::Long(a.name), a.name, expected)]
    }
}

/// The rows of a declaration with both spellings.
proof fn lemma_entries_of_both(v: ArgSpecView, c: char, l: Seq<char>)
    requires
        v.short == Some(c),
        v.long == Some(l),
    ensures
        spec_entries_of(v) =~= seq![
            (FlagView::Short(c), v.name, spec_at_most_of(v.shape)),
            (FlagView::Long(l), v.name, spec_at_most_of(v.shape))
        ],
{
}

/// The rows of a declaration with a short spelling alone.
proof fn lemma_entries_of_short(v: ArgSpecView, c: char)
    requires
        v.short == Some(c),
        v.long is None,
    ensures
        spec_entries_of(v) =~= seq![(FlagView::Short(c), v.name, spec_at_most_of(v.shape))],
{
}

/// The rows of a declaration with a long spelling alone.
proof fn lemma_entries_of_long(v: ArgSpecView, l: Seq<char>)
    requires
        v.short is None,
        v.long == Some(l),
    ensures
        spec_entries_of(v) =~= seq![(FlagView::Long(l), v.name, spec_at_most_of(v.shape))],
{
}

/// The row of a declaration with no spelling at all.
proof fn lemma_entries_of_default(v: ArgSpecView)
    requires
        v.short is None,
        v.long is None,
    ensures
        spec_entries_of(v) =~= seq![(FlagView::Long(v.name), v.name, spec_at_most_of(v.shape))],
{
}

/// The table rows of all declarations, in declaration order.
pub open spec fn spec_table_of(specs: Seq<ArgSpecView>) -> Seq<EntryView>
    decreases specs.len(),
{
    if specs.len() == 0 {
        Seq::empty()
    } else {
        spec_entries_of(specs[0]) + spec_table_of(specs.drop_first())
    }
}

/// Whether no two table rows share a flag identity.
pub open spec fn distinct_flags(entries: Seq<EntryView>) -> bool {
    forall|i: int, j: int| 0 <= i < j < entries.len() ==> entries[i].0 != entries[j].0
}

/// Error raised by the table builder.
#[derive(Clone, Copy, Debug, PartialEq, Eq, Structural)]
pub enum SchemaError {
    /// Two declarations share a short or long flag spelling.
    DuplicateFlag,
}

/// The table rows split at any declaration boundary.
proof fn lemma_table_of_split(specs: Seq<ArgSpecView>, i: int)
    requires
        0 <= i <= specs.len(),
    ensures
        spec_table_of(specs) == spec_table_of(specs.take(i)) + spec_table_of(specs.skip(i)),
    decreases i,
{
    if i == 0 {
        assert(specs.take(0) =~= Seq::<ArgSpecView>::empty());
        assert(specs.skip(0) =~= specs);
        assert(spec_table_of(specs.take(0)) + spec_table_of(specs) =~= spec_table_of(specs));
    } else {
        let rest = specs.drop_first();
        lemma_table_of_split(rest, i - 1);
        assert(specs.take(i).drop_first() =~= rest.take(i - 1));
        assert(specs.skip(i) =~= rest.skip(i - 1));
        assert(specs.take(i)[0] == specs[0]);
        assert(spec_table_of(specs.take(i)) + spec_table_of(specs.skip(i)) =~= spec_table_of(
            specs,
        ));
    }
}

/// Whether some row of the table holds the given flag identity.
#[verifier::loop_isolation(false)]
fn contains_flag(entries: &Vec<(Flag<'_>, &str, AtMost)>, flag: &Flag<'_>) -> (r: bool)
    ensures
        r == exists|p: int|
            0 <= p < entries.deep_view().len() && (#[trigger] entries.deep_view()[p]).0 == flag@,
{
    let mut k: usize = 0;
    while k < entries.len()
        invariant
            k <= entries@.len(),
            forall|p: int| 0 <= p < k ==> (#[trigger] entries.deep_view()[p]).0 != flag@,
        decreases entries@.len() - k,
    {
        proof {
            let row = entries@[k as int];
            assert(entries.deep_view()[k as int] == (row.0@, row.1@, row.2));
        }
        if entries[k].0 == *flag {
            return true;
        }
        k = k + 1;
    }
    false
}

/// Hand a character through a call, unchanged. Taking the character as a
/// by-value argument lets the verifier carry its typing into the facts that
/// mention it, which it loses for a character bound by a pattern.
fn pass_char(c: char) -> (r: char)
    ensures
        r == c,
{
    c
}

/// Build the look-up rows for the declared arguments.
///
/// The build succeeds exactly when no two rows share a flag identity; a
/// duplicate spelling across declarations fails the whole build.
#[verifier::loop_isolation(false)]
pub fn build_lookup_entries<'a>(specs: &[ArgSpec<'a>]) -> (r: Result<
    Vec<(Flag<'a>, &'a str, AtMost)>,
    SchemaError,
>)
    ensures
        r matches Ok(entries) ==> entries.deep_view() == spec_table_of(specs.deep_view())
            && distinct_flags(spec_table_of(specs.deep_view())),
        r is Err ==> !distinct_flags(spec_table_of(specs.deep_view())) && r->Err_0
            == SchemaError::DuplicateFlag,
{
    let ghost all = specs.deep_view();
    let mut out: Vec<(Flag<'a>, &'a str, AtMost)> = Vec::new();
    let mut i: usize = 0;

    proof {
        assert(out.deep_view() =~= spec_table_of(all.take(0)));
        assert(all.take(0) =~= Seq::<ArgSpecView>::empty());
    }

    while i < specs.len()
        invariant
            i <= specs.len(),
            out.deep_view() == spec_table_of(all.take(i as int)),
            distinct_flags(out.deep_view()),
        decreases specs.len() - i,
    {
        let a = specs[i];
        proof {
            assert(a.deep_view() == all[i as int]);
        }
        let expected = at_most_of(a.shape);

        // The rows that this declaration contributes. A field with neither
        // spelling is assumed to have a long flag named after it.
        let mut fresh: Vec<(Flag<'a>, &'a str, AtMost)> = Vec::new();
        if let Some(given) = a.short {
            let c = pass_char(given);
            fresh.push((Flag::Short(c), a.name, expected));
            if let Some(l) = a.long {
                fresh.push((Flag::Long(l), a.name, expected));
                proof {
                    lemma_entries_of_both(all[i as int], c, l@);
                    assert(fresh.deep_view() =~= spec_entries_of(all[i as int]));
                    assert(distinct_flags(fresh.deep_view()));
                }
            } else {
                proof {
                    lemma_entries_of_short(all[i as int], c);
                    assert(fresh.deep_view() =~= spec_entries_of(all[i as int]));
                    assert(distinct_flags(fresh.deep_view()));
                }
            }
        } else {
            if let Some(l) = a.long {
                fresh.push((Flag::Long(l), a.name, expected));
                proof {
                    lemma_entries_of_long(all[i as int], l@);
                    assert(fresh.deep_view() =~= spec_entries_of(all[i as int]));
                    assert(distinct_flags(fresh.deep_view()));
                }
            } else {
                // No spelling given: assume a long flag named after the
                // field.
                fresh.push((Flag::Long(a.name), a.name, expected));
                proof {
                    lemma_entries_of_default(all[i as int]);
                    assert(fresh.deep_view() =~= spec_entries_of(all[i as int]));
                    assert(distinct_flags(fresh.deep_view()));
                }
            }
        }

        let ghost base = out.deep_view();

        // Reject a spelling that an earlier declaration already uses.
        let mut k: usize = 0;
        while k < fresh.len()
            invariant
                k <= fresh@.len(),
                forall|m: int, p: int|
                    0 <= m < k && 0 <= p < base.len() ==> (#[trigger] fresh.deep_view()[m]).0 != (
                    #[trigger] base[p]).0,
            decreases fresh@.len() - k,
        {
            if contains_flag(&out, &fresh[k].0) {
                proof {
                    let row = fresh.deep_view()[k as int];
                    let p = choose|p: int|
                        0 <= p < base.len() && (#[trigger] base[p]).0 == row.0;
                    lemma_table_of_split(all, i as int);
                    assert(all.skip(i as int)[0] == all[i as int]);
                    assert(all.skip(i as int).drop_first() =~= all.skip(i as int + 1));
                    let table = spec_table_of(all);
                    let q = base.len() + k;
                    assert(table[p] == base[p]);
                    assert(table[q as int] == fresh.deep_view()[k as int]);
                    assert(!distinct_flags(table));
                }
                return Err(SchemaError::DuplicateFlag);
            }
            k = k + 1;
        }

        // Append the fresh rows.
        let mut m: usize = 0;
        while m < fresh.len()
            invariant
                m <= fresh@.len(),
                out.deep_view() =~= base + fresh.deep_view().take(m as int),
            decreases fresh@.len() - m,
        {
            let ghost pre = out.deep_view();
            let entry = fresh[m];
            proof {
                assert(entry.deep_view() == fresh.deep_view()[m as int]);
            }
            out.push(entry);
            m = m + 1;
            proof {
                assert(out.deep_view() =~= pre.push(fresh.deep_view()[m as int - 1]));
                assert(out.deep_view() =~= base + fresh.deep_view().take(m as int));
            }
        }
        proof {
            assert(fresh.deep_view().take(fresh.deep_view().len() as int) =~= fresh.deep_view());
            assert(out.deep_view() =~= base + fresh.deep_view());

            // The new rows collide neither with the old ones nor among
            // themselves.
            assert forall|i1: int, j1: int|
                0 <= i1 < j1 < out.deep_view().len() implies (#[trigger] out.deep_view()[i1]).0 != (
            #[trigger] out.deep_view()[j1]).0 by {
                if j1 < base.len() {
                    assert(out.deep_view()[i1] == base[i1] && out.deep_view()[j1] == base[j1]);
                } else if i1 < base.len() {
                    assert(out.deep_view()[i1] == base[i1]);
                    assert(out.deep_view()[j1] == fresh.deep_view()[j1 - base.len()]);
                } else {
                    assert(out.deep_view()[i1] == fresh.deep_view()[i1 - base.len()]);
                    assert(out.deep_view()[j1] == fresh.deep_view()[j1 - base.len()]);
                }
            }

            // One more declaration is folded into the table.
            lemma_table_of_split(all.take(i as int + 1), i as int);
            assert(all.take(i as int + 1).take(i as int) =~= all.take(i as int));
            assert(all.take(i as int + 1).skip(i as int) =~= seq![all[i as int]]);
            assert(seq![all[i as int]].drop_first() =~= Seq::<ArgSpecView>::empty());
            assert(spec_table_of(seq![all[i as int]]) =~= spec_entries_of(all[i as int]));
            assert(out.deep_view() =~= spec_table_of(all.take(i as int + 1)));
        }
        i = i + 1;
    }

    proof {
        assert(all.take(i as int) =~= all);
    }
    Ok(out)
}

} // verus!
