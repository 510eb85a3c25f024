//! Command-line argument parsing: turns the argument list (as byte strings)
//! into a validated configuration and input/output paths, or reports exactly
//! why the arguments are rejected. With no arguments at all the caller is
//! told to show the usage banner instead.

use vstd::prelude::*;

use crate::config::{Config, ConfigError, MAX_WIDTH};

verus! {

/// What the arguments ask for.
#[derive(Debug, PartialEq, Eq)]
pub enum Parsed {
    /// No arguments: show the usage banner and exit successfully.
    Help,
    /// Perform a dump with the given paths and configuration.
    Run(RunArgs),
}

/// A parsed dump request.
#[derive(Debug, PartialEq, Eq)]
pub struct RunArgs {
    /// Path of the file to read, as the bytes of the argument.
    pub input: Vec<u8>,
    /// Path to write to, if given; standard output otherwise.
    pub output: Option<Vec<u8>>,
    /// The validated formatting configuration.
    pub config: Config,
}

/// Why the arguments were rejected.
#[derive(Clone, Copy, Debug, PartialEq, Eq, Structural)]
pub enum CliError {
    /// No input path was given.
    MissingInput,
    /// More than one positional input path was given.
    MultipleInputs,
    /// A flag that needs a value was the last argument.
    MissingValue,
    /// A width or group value was not a decimal number that fits the host.
    InvalidNumber,
    /// A replacement value was not exactly one byte.
    InvalidReplacement,
    /// The numbers parsed, but do not form a valid configuration.
    Config(ConfigError),
}

/// The state the parser carries across arguments: what has been seen so far,
/// over the defaults of 16 bytes per line, groups of 4, and `.`.
pub ghost struct ParseState {
    pub input: Option<Seq<u8>>,
    pub output: Option<Seq<u8>>,
    pub width: usize,
    pub group: usize,
    pub replacement: u8,
}

/// The outcome the parser owes for a given argument list.
pub ghost enum ParseOutcome {
    Help,
    Run { input: Seq<u8>, output: Option<Seq<u8>>, config: Config },
    Fail(CliError),
}

/// The output flag: `-o` or `--output`.
pub open spec fn output_flag(a: Seq<u8>) -> bool {
    ||| a == seq![0x2du8, 0x6fu8]
    ||| a == seq![0x2du8, 0x2du8, 0x6fu8, 0x75u8, 0x74u8, 0x70u8, 0x75u8, 0x74u8]
}

/// The width flag: `-w` or `--width`.
pub open spec fn width_flag(a: Seq<u8>) -> bool {
    ||| a == seq![0x2du8, 0x77u8]
    ||| a == seq![0x2du8, 0x2du8, 0x77u8, 0x69u8, 0x64u8, 0x74u8, 0x68u8]
}

/// The group flag: `-g` or `--group`.
pub open spec fn group_flag(a: Seq<u8>) -> bool {
    ||| a == seq![0x2du8, 0x67u8]
    ||| a == seq![0x2du8, 0x2du8, 0x67u8, 0x72u8, 0x6fu8, 0x75u8, 0x70u8]
}

/// The replacement flag: `-r` or `--replacement`.
pub open spec fn replacement_flag(a: Seq<u8>) -> bool {
    ||| a == seq![0x2du8, 0x72u8]
    ||| a == seq![
        0x2du8,
        0x2du8,
        0x72u8,
        0x65u8,
        0x70u8,
        0x6cu8,
        0x61u8,
        0x63u8,
        0x65u8,
        0x6du8,
        0x65u8,
        0x6eu8,
        0x74u8,
    ]
}

/// A byte is a decimal digit character.
pub open spec fn is_digit(b: u8) -> bool {
    0x30 <= b && b <= 0x39
}

/// Every byte of the text is a decimal digit.
pub open spec fn all_digits(s: Seq<u8>) -> bool {
    forall|i: int| 0 <= i < s.len() ==> is_digit(#[trigger] s[i])
}

/// The number a string of decimal digits denotes.
pub open spec fn dec_value(s: Seq<u8>) -> int
    decreases s.len(),
{
    if s.len() == 0 {
        0
    } else {
        dec_value(s.drop_last()) * 10 + (s.last() - 0x30)
    }
}

/// A number argument is valid when it is a non-empty run of decimal digits
/// whose value fits the host's word size.
pub open spec fn valid_number(s: Seq<u8>) -> bool {
    s.len() > 0 && all_digits(s) && dec_value(s) <= usize::MAX
}

/// The defaults before any argument is seen.
pub open spec fn init_state() -> ParseState {
    ParseState { input: None, output: None, width: 16, group: 4, replacement: 0x2e }
}

/// The configuration error the state's numbers earn, mirroring validation.
pub open spec fn state_config_error(st: ParseState) -> ConfigError {
    if st.width == 0 {
        ConfigError::ZeroWidth
    } else if st.width > MAX_WIDTH {
        ConfigError::WidthTooLarge
    } else {
        ConfigError::GroupMismatch
    }
}

/// The outcome once all arguments are consumed: an input path is owed, and
/// the collected numbers must validate as a configuration.
pub open spec fn finalize(st: ParseState) -> ParseOutcome {
    match st.input {
        None => ParseOutcome::Fail(CliError::MissingInput),
        Some(input) => if 0 < st.width <= MAX_WIDTH && (st.group == 0 || st.width as int
            % st.group as int == 0) {
            ParseOutcome::Run {
                input,
                output: st.output,
                config: Config { width: st.width, group: st.group, replacement: st.replacement },
            }
        } else {
            ParseOutcome::Fail(CliError::Config(state_config_error(st)))
        },
    }
}

/// Consumes the remaining arguments left to right: a known flag takes the
/// following argument as its value, any other argument is the positional
/// input path, and at most one of those is accepted.
pub open spec fn parse_rec(args: Seq<Seq<u8>>, st: ParseState) -> ParseOutcome
    decreases args.len(),
{
    if args.len() == 0 {
        finalize(st)
    } else {
        let a = args.first();
        if output_flag(a) {
            if args.len() < 2 {
                ParseOutcome::Fail(CliError::MissingValue)
            } else {
                parse_rec(args.skip(2), ParseState { output: Some(args[1]), ..st })
            }
        } else if width_flag(a) {
            if args.len() < 2 {
                ParseOutcome::Fail(CliError::MissingValue)
            } else if !valid_number(args[1]) {
                ParseOutcome::Fail(CliError::InvalidNumber)
            } else {
                parse_rec(args.skip(2), ParseState { width: dec_value(args[1]) as usize, ..st })
            }
        } else if group_flag(a) {
            if args.len() < 2 {
                ParseOutcome::Fail(CliError::MissingValue)
            } else if !valid_number(args[1]) {
                ParseOutcome::Fail(CliError::InvalidNumber)
            } else {
                parse_rec(args.skip(2), ParseState { group: dec_value(args[1]) as usize, ..st })
            }
        } else if replacement_flag(a) {
            if args.len() < 2 {
                ParseOutcome::Fail(CliError::MissingValue)
            } else if args[1].len() != 1 {
                ParseOutcome::Fail(CliError::InvalidReplacement)
            } else {
                parse_rec(args.skip(2), ParseState { replacement: args[1][0], ..st })
            }
        } else {
            if st.input is Some {
                ParseOutcome::Fail(CliError::MultipleInputs)
            } else {
                parse_rec(args.skip(1), ParseState { input: Some(a), ..st })
            }
        }
    }
}

/// The outcome owed for a whole argument list: the usage banner on no
/// arguments at all, otherwise a left-to-right parse from the defaults.
pub open spec fn parse_spec(args: Seq<Seq<u8>>) -> ParseOutcome {
    if args.len() == 0 {
        ParseOutcome::Help
    } else {
        parse_rec(args, init_state())
    }
}

fn is_output_flag(a: &[u8]) -> (r: bool)
    ensures
        r == output_flag(a@),
{
    let short = a.len() == 2 && a[0] == 0x2d && a[1] == 0x6f;
    let long = a.len() == 8 && a[0] == 0x2d && a[1] == 0x2d && a[2] == 0x6f && a[3] == 0x75 && a[4]
        == 0x74 && a[5] == 0x70 && a[6] == 0x75 && a[7] == 0x74;
    proof {
        if short {
            assert(a@ =~= seq![0x2du8, 0x6fu8]);
        }
        if long {
            assert(a@ =~= seq![0x2du8, 0x2du8, 0x6fu8, 0x75u8, 0x74u8, 0x70u8, 0x75u8, 0x74u8]);
        }
    }
    short || long
}

fn is_width_flag(a: &[u8]) -> (r: bool)
    ensures
        r == width_flag(a@),
{
    let short = a.len() == 2 && a[0] == 0x2d && a[1] == 0x77;
    let long = a.len() == 7 && a[0] == 0x2d && a[1] == 0x2d && a[2] == 0x77 && a[3] == 0x69 && a[4]
        == 0x64 && a[5] == 0x74 && a[6] == 0x68;
    proof {
        if short {
            assert(a@ =~= seq![0x2du8, 0x77u8]);
        }
        if long {
            assert(a@ =~= seq![0x2du8, 0x2du8, 0x77u8, 0x69u8, 0x64u8, 0x74u8, 0x68u8]);
        }
    }
    short || long
}

fn is_group_flag(a: &[u8]) -> (r: bool)
    ensures
        r == group_flag(a@),
{
    let short = a.len() == 2 && a[0] == 0x2d && a[1] == 0x67;
    let long = a.len() == 7 && a[0] == 0x2d && a[1] == 0x2d && a[2] == 0x67 && a[3] == 0x72 && a[4]
        == 0x6f && a[5] == 0x75 && a[6] == 0x70;
    proof {
        if short {
            assert(a@ =~= seq![0x2du8, 0x67u8]);
        }
        if long {
            assert(a@ =~= seq![0x2du8, 0x2du8, 0x67u8, 0x72u8, 0x6fu8, 0x75u8, 0x70u8]);
        }
    }
    short || long
}

fn is_replacement_flag(a: &[u8]) -> (r: bool)
    ensures
        r == replacement_flag(a@),
{
    let short = a.len() == 2 && a[0] == 0x2d && a[1] == 0x72;
    let long = a.len() == 13 && a[0] == 0x2d && a[1] == 0x2d && a[2] == 0x72 && a[3] == 0x65 && a[4]
        == 0x70 && a[5] == 0x6c && a[6] == 0x61 && a[7] == 0x63 && a[8] == 0x65 && a[9] == 0x6d
        && a[10] == 0x65 && a[11] == 0x6e && a[12] == 0x74;
    proof {
        if short {
            assert(a@ =~= seq![0x2du8, 0x72u8]);
        }
        if long {
            assert(a@ =~= seq![
                0x2du8,
                0x2du8,
                0x72u8,
                0x65u8,
                0x70u8,
                0x6cu8,
                0x61u8,
                0x63u8,
                0x65u8,
                0x6du8,
                0x65u8,
                0x6eu8,
                0x74u8,
            ]);
        }
    }
    short || long
}

proof fn lemma_dec_nonneg(s: Seq<u8>)
    requires
        all_digits(s),
    ensures
        dec_value(s) >= 0,
    decreases s.len(),
{
    if s.len() > 0 {
        assert(all_digits(s.drop_last()));
        lemma_dec_nonneg(s.drop_last());
    }
}

/// The value of a digit string is at least the value of any of its prefixes.
proof fn lemma_dec_prefix_le(s: Seq<u8>, i: int)
    requires
        all_digits(s),
        0 <= i <= s.len(),
    ensures
        dec_value(s.take(i)) <= dec_value(s),
    decreases s.len() - i,
{
    if i == s.len() {
        assert(s.take(i) =~= s);
    } else {
        assert(s.take(i + 1).drop_last() =~= s.take(i));
        assert(all_digits(s.take(i)));
        lemma_dec_nonneg(s.take(i));
        lemma_dec_prefix_le(s, i + 1);
    }
}

/// Parses a decimal number, accepting exactly the non-empty all-digit
/// strings whose value fits in `usize`.
pub fn parse_usize(s: &[u8]) -> (r: Option<usize>)
    ensures
        r is Some <==> valid_number(s@),
        r matches Some(v) ==> v == dec_value(s@),
{
    if s.len() == 0 {
        return None;
    }
    let mut acc: usize = 0;
    let mut i: usize = 0;
    proof {
        assert(s@.take(0) =~= Seq::<u8>::empty());
    }
    while i < s.len()
        invariant
            i <= s@.len(),
            acc == dec_value(s@.take(i as int)),
            all_digits(s@.take(i as int)),
        decreases s@.len() - i,
    {
        let b = s[i];
        if b < 0x30 || b > 0x39 {
            return None;
        }
        let d = (b - 0x30) as usize;
        proof {
            assert(s@.take(i + 1).drop_last() =~= s@.take(i as int));
            assert(all_digits(s@.take(i + 1)));
        }
        if acc > (usize::MAX - d) / 10 {
            proof {
                vstd::arithmetic::div_mod::lemma_fundamental_div_mod(
                    usize::MAX - d,
                    10,
                );
                assert(dec_value(s@.take(i + 1)) > usize::MAX);
                if all_digits(s@) {
                    lemma_dec_prefix_le(s@, i + 1);
                }
            }
            return None;
        }
        proof {
            vstd::arithmetic::div_mod::lemma_fundamental_div_mod(usize::MAX - d, 10);
        }
        acc = acc * 10 + d;
        i += 1;
    }
    proof {
        assert(s@.take(s@.len() as int) =~= s@);
    }
    Some(acc)
}

fn copy_bytes(v: &Vec<u8>) -> (r: Vec<u8>)
    ensures
        r@ == v@,
{
    vstd::slice::slice_to_vec(v.as_slice())
}

/// An executable result agrees with a spec outcome when it is the same
/// verdict with the same contents, viewed as sequences.
pub open spec fn matches_outcome(r: Result<Parsed, CliError>, po: ParseOutcome) -> bool {
    match po {
        ParseOutcome::Help => r == Ok::<Parsed, CliError>(Parsed::Help),
        ParseOutcome::Run { input, output, config } => match r {
            Ok(Parsed::Run(ra)) => {
                &&& ra.input@ == input
                &&& ra.config == config
                &&& match (ra.output, output) {
                    (None, None) => true,
                    (Some(v), Some(s)) => v@ == s,
                    _ => false,
                }
            },
            _ => false,
        },
        ParseOutcome::Fail(e) => r == Err::<Parsed, CliError>(e),
    }
}

/// The view of an optional byte-string argument.
pub open spec fn opt_bytes(o: Option<Vec<u8>>) -> Option<Seq<u8>> {
    match o {
        None => None,
        Some(v) => Some(v@),
    }
}

/// The parse state the executable parser's locals stand for.
pub open spec fn state_of(
    input: Option<Vec<u8>>,
    output: Option<Vec<u8>>,
    width: usize,
    group: usize,
    replacement: u8,
) -> ParseState {
    ParseState {
        input: opt_bytes(input),
        output: opt_bytes(output),
        width,
        group,
        replacement,
    }
}

/// Parses an argument list (each argument as its bytes, the program name
/// already removed). Accepts one positional input path and the flags
/// `-o`/`--output`, `-w`/`--width`, `-g`/`--group`, `-r`/`--replacement`;
/// rejects exactly what the specification's parse rejects.
pub fn parse_args(args: &Vec<Vec<u8>>) -> (r: Result<Parsed, CliError>)
    ensures
        matches_outcome(r, parse_spec(args.deep_view())),
        r matches Ok(p) ==> (p matches Parsed::Run(ra) ==> ra.config.wf()),
{
    let ghost av = args.deep_view();
    proof {
        assert(av.len() == args@.len());
        assert forall|j: int| 0 <= j < av.len() implies av[j] == args@[j]@ by {
            assert(av[j] =~= args@[j]@);
        }
    }
    if args.len() == 0 {
        return Ok(Parsed::Help);
    }
    let mut input: Option<Vec<u8>> = None;
    let mut output: Option<Vec<u8>> = None;
    let mut width: usize = 16;
    let mut group: usize = 4;
    let mut replacement: u8 = 0x2e;
    let mut i: usize = 0;
    proof {
        assert(av.skip(0) =~= av);
    }
    while i < args.len()
        invariant
            av == args.deep_view(),
            av.len() == args@.len(),
            forall|j: int| 0 <= j < av.len() ==> av[j] == args@[j]@,
            i <= args@.len(),
            parse_rec(av.skip(i as int), state_of(input, output, width, group, replacement))
                == parse_rec(av, init_state()),
        decreases args@.len() - i,
    {
        let ghost st = state_of(input, output, width, group, replacement);
        let ghost rest = av.skip(i as int);
        proof {
            assert(rest.first() == av[i as int]);
        }
        let a = &args[i];
        if is_output_flag(a.as_slice()) {
            if i + 1 >= args.len() {
                return Err(CliError::MissingValue);
            }
            proof {
                assert(rest[1] == av[i + 1]);
                assert(rest.skip(2) =~= av.skip(i + 2));
            }
            output = Some(copy_bytes(&args[i + 1]));
            i = i + 2;
        } else if is_width_flag(a.as_slice()) {
            if i + 1 >= args.len() {
                return Err(CliError::MissingValue);
            }
            proof {
                assert(rest[1] == av[i + 1]);
                assert(rest.skip(2) =~= av.skip(i + 2));
            }
            match parse_usize(args[i + 1].as_slice()) {
                None => {
                    return Err(CliError::InvalidNumber);
                },
                Some(v) => {
                    width = v;
                },
            }
            i = i + 2;
        } else if is_group_flag(a.as_slice()) {
            if i + 1 >= args.len() {
                return Err(CliError::MissingValue);
            }
            proof {
                assert(rest[1] == av[i + 1]);
                assert(rest.skip(2) =~= av.skip(i + 2));
            }
            match parse_usize(args[i + 1].as_slice()) {
                None => {
                    return Err(CliError::InvalidNumber);
                },
                Some(v) => {
                    group = v;
                },
            }
            i = i + 2;
        } else if is_replacement_flag(a.as_slice()) {
            if i + 1 >= args.len() {
                return Err(CliError::MissingValue);
            }
            proof {
                assert(rest[1] == av[i + 1]);
                assert(rest.skip(2) =~= av.skip(i + 2));
            }
            let value = &args[i + 1];
            if value.len() != 1 {
                return Err(CliError::InvalidReplacement);
            }
            replacement = value[0];
            i = i + 2;
        } else {
            proof {
                assert(rest.skip(1) =~= av.skip(i + 1));
            }
            if input.is_some() {
                return Err(CliError::MultipleInputs);
            }
            input = Some(copy_bytes(a));
            i = i + 1;
        }
    }
    proof {
        assert(av.skip(i as int) =~= Seq::<Seq<u8>>::empty());
    }
    let path = match input {
        None => {
            return Err(CliError::MissingInput);
        },
        Some(p) => p,
    };
    match Config::new(width, group, replacement) {
        Err(e) => Err(CliError::Config(e)),
        Ok(config) => Ok(Parsed::Run(RunArgs { input: path, output, config })),
    }
}

} // verus!
