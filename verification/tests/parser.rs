use noshell::parser::lexer::Flag;
use noshell::parser::Arg;
use noshell::parser::ArgLookupTable;
use noshell::parser::AtMost;
use noshell::parser::Error;
use noshell::parser::ParsedArgs;
use noshell::parser::Values;

const PARSED_ARG_CAPACITY: usize = 32;
const PARSED_VALUES_CAPACITY: usize = 8;

#[test]
fn it_should_parse_arg_values_with_missing_value() {
    let argv: &[&str] = &["-f"];
    let (rest, arg) =
        ParsedArgs::<'_, PARSED_ARG_CAPACITY>::parse_arg_values(&[], "field", AtMost::One);

    assert_eq!(rest, Values::empty());
    assert_eq!(arg, Arg::Named("field", Values::new(&argv[1..])));
    assert!(matches!(arg, Arg::Named("field", values) if values.is_empty()));
}

#[test]
fn it_should_parse_arg_values_with_missing_many_values() {
    let argv: &[&str] = &["-f"];
    let (rest, arg) =
        ParsedArgs::<'_, PARSED_ARG_CAPACITY>::parse_arg_values(&[], "field", AtMost::Many);

    assert_eq!(rest, Values::empty());
    assert_eq!(arg, Arg::Named("field", Values::new(&argv[1..])));
    assert!(matches!(arg, Arg::Named("field", values) if values.is_empty()));
}

#[test]
fn it_should_parse_arg_values_with_value() {
    let argv: &[&str] = &["-f", "42"];
    let (rest, arg) =
        ParsedArgs::<'_, PARSED_ARG_CAPACITY>::parse_arg_values(&argv[1..], "field", AtMost::One);

    assert_eq!(rest, Values::new(&argv[2..]));
    assert_eq!(arg, Arg::Named("field", Values::new(&argv[1..])));
    assert!(matches!(arg, Arg::Named("field", values) if !values.is_empty()));
}

#[test]
fn it_should_parse_arg_values_with_single_many_values() {
    let argv: &[&str] = &["-f", "42"];
    let (rest, arg) =
        ParsedArgs::<'_, PARSED_ARG_CAPACITY>::parse_arg_values(&[], "field", AtMost::Many);

    assert_eq!(rest, Values::empty());
    assert_eq!(arg, Arg::Named("field", Values::new(&argv[2..])));
    assert!(matches!(arg, Arg::Named("field", values) if values.is_empty()));
}

#[test]
fn it_should_parse_arg_values_with_many_value() {
    let argv: &[&str] = &["-f", "42", "24"];
    let (rest, arg) =
        ParsedArgs::<'_, PARSED_ARG_CAPACITY>::parse_arg_values(&argv[1..], "field", AtMost::Many);

    assert_eq!(rest, Values::new(&argv[3..]));
    assert_eq!(arg, Arg::Named("field", Values::new(&argv[1..])));
    assert!(matches!(arg, Arg::Named("field", values) if values.len() > 1));
}

#[test]
fn it_should_parse_missing_arg_value() {
    let entries = [(Flag::Short('f'), "field", AtMost::One)];
    let lookup = ArgLookupTable::new(&entries);

    let argv: &[&str] = &["-f"];
    let args: ParsedArgs<'_, PARSED_ARG_CAPACITY> = ParsedArgs::parse_from(argv, &lookup);

    assert_eq!(args.try_get_one::<u32>("field"), Ok(Some(None)));
}

#[test]
fn it_should_parse_missing_arg_many_value() {
    let entries = [(Flag::Short('f'), "field", AtMost::Many)];
    let lookup = ArgLookupTable::new(&entries);

    let argv: &[&str] = &["-f"];
    let args: ParsedArgs<'_, PARSED_ARG_CAPACITY> = ParsedArgs::parse_from(argv, &lookup);

    let found = args.try_get_many::<heapless::Vec<u32, PARSED_VALUES_CAPACITY>, u32>("field");
    assert!(matches!(found, Ok(Some(values)) if values.is_empty()));
}

#[test]
fn it_should_parse_invalid_arg_value() {
    let entries = [(Flag::Short('f'), "field", AtMost::One)];
    let lookup = ArgLookupTable::new(&entries);

    let argv: &[&str] = &["-f", "-42"];
    let args: ParsedArgs<'_, PARSED_ARG_CAPACITY> = ParsedArgs::parse_from(argv, &lookup);

    assert_eq!(args.try_get_one::<u32>("field"), Err(Error::InvalidArgument));
}

#[test]
fn it_should_parse_invalid_arg_many_value() {
    let entries = [(Flag::Short('f'), "field", AtMost::Many)];
    let lookup = ArgLookupTable::new(&entries);

    let argv: &[&str] = &["-f", "42", "-42"];
    let args: ParsedArgs<'_, PARSED_ARG_CAPACITY> = ParsedArgs::parse_from(argv, &lookup);

    let found = args.try_get_many::<heapless::Vec<u32, PARSED_VALUES_CAPACITY>, u32>("field");
    assert_eq!(found, Err(Error::InvalidArgument));
}

#[test]
fn it_should_parse_valid_value() {
    let entries = [(Flag::Short('f'), "field", AtMost::One)];
    let lookup = ArgLookupTable::new(&entries);

    let argv: &[&str] = &["-f", "42"];
    let args: ParsedArgs<'_, PARSED_ARG_CAPACITY> = ParsedArgs::parse_from(argv, &lookup);

    assert_eq!(args.try_get_one::<u32>("field"), Ok(Some(Some(42))));
}

#[test]
fn it_should_parse_valid_many_value() {
    let entries = [(Flag::Short('f'), "field", AtMost::Many)];
    let lookup = ArgLookupTable::new(&entries);

    let argv: &[&str] = &["-f", "42", "42"];
    let args: ParsedArgs<'_, PARSED_ARG_CAPACITY> = ParsedArgs::parse_from(argv, &lookup);

    let found = args.try_get_many::<heapless::Vec<u32, PARSED_VALUES_CAPACITY>, u32>("field");
    assert!(matches!(found, Ok(Some(values)) if values.iter().sum::<u32>() == 84));
}

#[test]
fn many_values_keep_argv_order() {
    let entries = [(Flag::Short('f'), "field", AtMost::Many)];
    let lookup = ArgLookupTable::new(&entries);

    let argv: &[&str] = &["-f", "42", "24"];
    let args: ParsedArgs<'_, PARSED_ARG_CAPACITY> = ParsedArgs::parse_from(argv, &lookup);

    let found = args
        .try_get_many::<Vec<u32>, u32>("field")
        .unwrap()
        .unwrap();
    assert_eq!(found, vec![42, 24]);
    assert_eq!(found.iter().sum::<u32>(), 66);
}

#[test]
fn capacity_boundary() {
    let entries = [(Flag::Short('f'), "field", AtMost::One)];
    let lookup = ArgLookupTable::new(&entries);

    let argv: &[&str] = &["-f", "42"];
    assert!(ParsedArgs::<'_, 2>::try_parse_from(argv, &lookup).is_ok());

    let argv: &[&str] = &["-f", "42", "24"];
    let refused = ParsedArgs::<'_, 2>::try_parse_from(argv, &lookup);
    assert!(matches!(refused, Err(Error::OutOfMemory)));
}

#[test]
fn undefined_flag_fails_whole_parse() {
    let entries = [(Flag::Short('f'), "field", AtMost::One)];
    let lookup = ArgLookupTable::new(&entries);

    let argv: &[&str] = &["-f", "42", "-x"];
    let refused = ParsedArgs::<'_, PARSED_ARG_CAPACITY>::try_parse_from(argv, &lookup);
    assert!(matches!(refused, Err(Error::UndefinedArgument)));

    let argv: &[&str] = &["--unknown"];
    let refused = ParsedArgs::<'_, PARSED_ARG_CAPACITY>::try_parse_from(argv, &lookup);
    assert!(matches!(refused, Err(Error::UndefinedArgument)));
}

#[test]
fn capacity_check_runs_before_flag_check() {
    let entries = [(Flag::Short('f'), "field", AtMost::One)];
    let lookup = ArgLookupTable::new(&entries);

    let argv: &[&str] = &["-x", "1", "2"];
    let refused = ParsedArgs::<'_, 2>::try_parse_from(argv, &lookup);
    assert!(matches!(refused, Err(Error::OutOfMemory)));
}

#[test]
fn lookup_table_returns_first_match() {
    let entries = [
        (Flag::Short('f'), "first", AtMost::One),
        (Flag::Short('f'), "second", AtMost::Many),
        (Flag::Long("flag"), "third", AtMost::Zero),
    ];
    let lookup = ArgLookupTable::new(&entries);

    assert_eq!(
        lookup.metadata_of(&Flag::Short('f')),
        Some(("first", AtMost::One))
    );
    assert_eq!(
        lookup.metadata_of(&Flag::Long("flag")),
        Some(("third", AtMost::Zero))
    );
    assert_eq!(lookup.metadata_of(&Flag::Long("nope")), None);
    assert_eq!(lookup.metadata_of(&Flag::Short('x')), None);
}

#[test]
fn contains_and_values_of() {
    let entries = [
        (Flag::Short('f'), "field", AtMost::One),
        (Flag::Long("verbose"), "verbose", AtMost::Zero),
    ];
    let lookup = ArgLookupTable::new(&entries);

    let argv: &[&str] = &["--verbose", "pos", "-f", "42"];
    let args: ParsedArgs<'_, PARSED_ARG_CAPACITY> = ParsedArgs::parse_from(argv, &lookup);

    assert!(args.contains("verbose"));
    assert!(args.contains("field"));
    assert!(!args.contains("pos"));

    let values = args.values_of("field").unwrap();
    assert_eq!(values.iter(), vec!["42"]);
    let values = args.values_of("verbose").unwrap();
    assert!(values.is_empty());
    assert!(args.values_of("nope").is_none());
}

#[test]
fn zero_cardinality_keeps_no_value() {
    let entries = [(Flag::Long("verbose"), "verbose", AtMost::Zero)];
    let lookup = ArgLookupTable::new(&entries);

    let argv: &[&str] = &["--verbose", "left", "over"];
    let args: ParsedArgs<'_, PARSED_ARG_CAPACITY> = ParsedArgs::parse_from(argv, &lookup);

    assert_eq!(args.try_get_one::<u32>("verbose"), Ok(Some(None)));
}

#[test]
fn one_cardinality_rejects_extra_buffered_values() {
    let entries = [(Flag::Short('f'), "field", AtMost::Many)];
    let lookup = ArgLookupTable::new(&entries);

    let argv: &[&str] = &["-f", "1", "2"];
    let args: ParsedArgs<'_, PARSED_ARG_CAPACITY> = ParsedArgs::parse_from(argv, &lookup);

    assert_eq!(args.try_get_one::<u32>("field"), Err(Error::InvalidArgument));
}

#[test]
fn absent_argument_reads_as_none() {
    let entries = [(Flag::Short('f'), "field", AtMost::One)];
    let lookup = ArgLookupTable::new(&entries);

    let argv: &[&str] = &[];
    let args: ParsedArgs<'_, PARSED_ARG_CAPACITY> = ParsedArgs::parse_from(argv, &lookup);

    assert_eq!(args.try_get_one::<u32>("field"), Ok(None));
    let found = args.try_get_many::<Vec<u32>, u32>("field");
    assert_eq!(found, Ok(None));
}

#[test]
fn top_level_error_wraps_parser_error() {
    let wrapped = noshell::Error::from(Error::OutOfMemory);
    assert_eq!(wrapped, noshell::Error::Parser(Error::OutOfMemory));
}
