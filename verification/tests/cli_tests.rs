use dumpx::cli::{parse_args, parse_usize, CliError, Parsed, RunArgs};
use dumpx::config::{Config, ConfigError, MAX_WIDTH};

fn args(list: &[&str]) -> Vec<Vec<u8>> {
    list.iter().map(|a| a.as_bytes().to_vec()).collect()
}

#[test]
fn no_arguments_ask_for_the_banner() {
    assert_eq!(parse_args(&args(&[])), Ok(Parsed::Help));
}

#[test]
fn single_path_uses_defaults() {
    let r = parse_args(&args(&["data.bin"]));
    assert_eq!(
        r,
        Ok(Parsed::Run(RunArgs {
            input: b"data.bin".to_vec(),
            output: None,
            config: Config { width: 16, group: 4, replacement: b'.' },
        }))
    );
}

#[test]
fn output_flag_takes_the_next_argument() {
    let r = parse_args(&args(&["-o", "out.txt", "in.bin"]));
    assert_eq!(
        r,
        Ok(Parsed::Run(RunArgs {
            input: b"in.bin".to_vec(),
            output: Some(b"out.txt".to_vec()),
            config: Config { width: 16, group: 4, replacement: b'.' },
        }))
    );
}

#[test]
fn long_flags_parse_like_short_ones() {
    let r = parse_args(&args(&[
        "--width",
        "32",
        "--group",
        "8",
        "--replacement",
        "#",
        "--output",
        "o.txt",
        "in.bin",
    ]));
    assert_eq!(
        r,
        Ok(Parsed::Run(RunArgs {
            input: b"in.bin".to_vec(),
            output: Some(b"o.txt".to_vec()),
            config: Config { width: 32, group: 8, replacement: b'#' },
        }))
    );
}

#[test]
fn missing_input_is_rejected() {
    assert_eq!(parse_args(&args(&["-w", "8"])), Err(CliError::MissingInput));
}

#[test]
fn second_positional_path_is_rejected() {
    assert_eq!(
        parse_args(&args(&["one.bin", "two.bin"])),
        Err(CliError::MultipleInputs)
    );
}

#[test]
fn flag_without_value_is_rejected() {
    assert_eq!(parse_args(&args(&["in.bin", "-o"])), Err(CliError::MissingValue));
    assert_eq!(parse_args(&args(&["in.bin", "-w"])), Err(CliError::MissingValue));
}

#[test]
fn non_numeric_width_is_rejected() {
    assert_eq!(
        parse_args(&args(&["-w", "sixteen", "in.bin"])),
        Err(CliError::InvalidNumber)
    );
}

#[test]
fn oversized_number_is_rejected() {
    assert_eq!(
        parse_args(&args(&["-w", "99999999999999999999999999", "in.bin"])),
        Err(CliError::InvalidNumber)
    );
}

#[test]
fn replacement_must_be_one_byte() {
    assert_eq!(
        parse_args(&args(&["-r", "ab", "in.bin"])),
        Err(CliError::InvalidReplacement)
    );
    assert_eq!(
        parse_args(&args(&["-r", "", "in.bin"])),
        Err(CliError::InvalidReplacement)
    );
}

#[test]
fn zero_width_is_a_configuration_error() {
    assert_eq!(
        parse_args(&args(&["-w", "0", "in.bin"])),
        Err(CliError::Config(ConfigError::ZeroWidth))
    );
}

#[test]
fn group_must_divide_width() {
    assert_eq!(
        parse_args(&args(&["-w", "6", "-g", "4", "in.bin"])),
        Err(CliError::Config(ConfigError::GroupMismatch))
    );
}

#[test]
fn later_flag_value_wins() {
    let r = parse_args(&args(&["-w", "8", "-w", "4", "in.bin"]));
    assert_eq!(
        r,
        Ok(Parsed::Run(RunArgs {
            input: b"in.bin".to_vec(),
            output: None,
            config: Config { width: 4, group: 4, replacement: b'.' },
        }))
    );
}

#[test]
fn parse_usize_accepts_exactly_decimal_strings() {
    assert_eq!(parse_usize(b"0"), Some(0));
    assert_eq!(parse_usize(b"123"), Some(123));
    assert_eq!(parse_usize(b""), None);
    assert_eq!(parse_usize(b"12a"), None);
    assert_eq!(parse_usize(b"-4"), None);
}

#[test]
fn group_equal_to_width_is_accepted() {
    assert_eq!(
        parse_args(&args(&["-w", "4", "-g", "4", "in.bin"])),
        Ok(Parsed::Run(RunArgs {
            input: b"in.bin".to_vec(),
            output: None,
            config: Config { width: 4, group: 4, replacement: b'.' },
        }))
    );
}

#[test]
fn group_larger_than_width_is_rejected() {
    assert_eq!(
        parse_args(&args(&["-w", "4", "-g", "8", "in.bin"])),
        Err(CliError::Config(ConfigError::GroupMismatch))
    );
}

#[test]
fn config_validation_bounds() {
    assert_eq!(Config::new(0, 4, b'.'), Err(ConfigError::ZeroWidth));
    assert_eq!(Config::new(MAX_WIDTH + 1, 0, b'.'), Err(ConfigError::WidthTooLarge));
    assert_eq!(Config::new(5, 4, b'.'), Err(ConfigError::GroupMismatch));
    assert_eq!(
        Config::new(16, 0, b'.'),
        Ok(Config { width: 16, group: 0, replacement: b'.' })
    );
    assert_eq!(
        Config::new(4, 4, b'x'),
        Ok(Config { width: 4, group: 4, replacement: b'x' })
    );
}
