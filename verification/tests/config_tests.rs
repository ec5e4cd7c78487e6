use pass_gen::config::{Config, ConfigError, PoolSpec};

fn args(list: &[&str]) -> Vec<String> {
    list.iter().map(|s| s.to_string()).collect()
}

#[test]
fn default_is_word_preset() {
    let c = Config::default();
    assert!(!c.report);
    assert_eq!(c.token_count, 6);
    assert_eq!(c.token_sep, "-");
    assert!(matches!(c.pool, PoolSpec::Word));
}

#[test]
fn empty_args_give_default() {
    let c = Config::new(&args(&["pass-gen"])).unwrap();
    assert!(!c.report);
    assert_eq!(c.token_count, 6);
    assert_eq!(c.token_sep, "-");
    assert!(matches!(c.pool, PoolSpec::Word));
}

#[test]
fn preset_word_count_sep() {
    let c = Config::new(&args(&["pass-gen", "--preset", "word", "--count", "4", "--sep", "-"]))
        .unwrap();
    assert_eq!(c.token_count, 4);
    assert_eq!(c.token_sep, "-");
    assert!(matches!(c.pool, PoolSpec::Word));
}

#[test]
fn preset_resets_count_and_sep() {
    let c = Config::new(&args(&["pass-gen", "--count", "3", "--sep", "+", "--preset", "ascii"]))
        .unwrap();
    assert_eq!(c.token_count, 16);
    assert_eq!(c.token_sep, "");
    assert!(matches!(c.pool, PoolSpec::Ascii));
}

#[test]
fn preset_preserves_report_flag() {
    let c = Config::new(&args(&["pass-gen", "-r", "--preset", "number"])).unwrap();
    assert!(c.report);
    assert_eq!(c.token_count, 8);
    assert!(matches!(c.pool, PoolSpec::Number));
}

#[test]
fn later_flags_override_preset() {
    let c = Config::new(&args(&["pass-gen", "--preset", "number", "--count", "12"])).unwrap();
    assert_eq!(c.token_count, 12);
    assert!(matches!(c.pool, PoolSpec::Number));
}

#[test]
fn file_flag_records_path() {
    let c = Config::new(&args(&["pass-gen", "-f", "tokens.txt"])).unwrap();
    match c.pool {
        PoolSpec::File(p) => assert_eq!(p, "tokens.txt"),
        _ => panic!("expected a file pool"),
    }
}

#[test]
fn count_zero_is_rejected() {
    let r = Config::new(&args(&["pass-gen", "--count", "0"]));
    match r {
        Err(ConfigError::InvalidCount(flag, val)) => {
            assert_eq!(flag, "--count");
            assert_eq!(val, "0");
        }
        _ => panic!("expected an invalid count error"),
    }
}

#[test]
fn count_not_a_number_is_rejected() {
    let r = Config::new(&args(&["pass-gen", "-c", "12x"]));
    assert!(matches!(r, Err(ConfigError::InvalidCount(_, _))));
}

#[test]
fn count_overflow_is_rejected() {
    let r = Config::new(&args(&["pass-gen", "-c", "4294967296"]));
    assert!(matches!(r, Err(ConfigError::InvalidCount(_, _))));
}

#[test]
fn count_max_is_accepted() {
    let c = Config::new(&args(&["pass-gen", "-c", "4294967295"])).unwrap();
    assert_eq!(c.token_count, u32::MAX);
}

#[test]
fn unknown_preset_is_rejected() {
    let r = Config::new(&args(&["pass-gen", "--preset", "bogus"]));
    match r {
        Err(ConfigError::InvalidPreset(name)) => {
            assert_eq!(name, "bogus");
            assert_eq!(
                ConfigError::InvalidPreset(name).message(),
                "invalid preset \"bogus\""
            );
        }
        _ => panic!("expected an invalid preset error"),
    }
}

#[test]
fn unknown_option_is_rejected() {
    let r = Config::new(&args(&["pass-gen", "--frobnicate"]));
    match r {
        Err(ConfigError::InvalidOption(flag)) => {
            assert_eq!(flag, "--frobnicate");
            assert_eq!(
                ConfigError::InvalidOption(flag).message(),
                "invalid option \"--frobnicate\""
            );
        }
        _ => panic!("expected an invalid option error"),
    }
}

#[test]
fn missing_argument_is_rejected() {
    let r = Config::new(&args(&["pass-gen", "--sep"]));
    match r {
        Err(ConfigError::MissingArgument(flag)) => {
            assert_eq!(flag, "--sep");
            assert_eq!(
                ConfigError::MissingArgument(flag).message(),
                "missing argument to --sep"
            );
        }
        _ => panic!("expected a missing argument error"),
    }
}

#[test]
fn invalid_count_message_names_flag_and_value() {
    let r = Config::new(&args(&["pass-gen", "--count", "0"]));
    match r {
        Err(e) => assert_eq!(
            e.message(),
            "invalid argument to \"--count\", expected positive number got \"0\""
        ),
        _ => panic!("expected an error"),
    }
}

#[test]
fn short_flags_match_long_ones() {
    let c = Config::new(&args(&["pass-gen", "-r", "-c", "9", "-s", "_", "-p", "word"])).unwrap();
    // the later preset resets count and separator
    assert!(c.report);
    assert_eq!(c.token_count, 6);
    assert_eq!(c.token_sep, "-");
}

#[test]
fn parse_u32_exact_values() {
    assert_eq!(pass_gen::config::parse_u32(&"0".to_string()), Some(0));
    assert_eq!(pass_gen::config::parse_u32(&"007".to_string()), Some(7));
    assert_eq!(
        pass_gen::config::parse_u32(&"4294967295".to_string()),
        Some(u32::MAX)
    );
    assert_eq!(pass_gen::config::parse_u32(&"4294967296".to_string()), None);
    assert_eq!(pass_gen::config::parse_u32(&"".to_string()), None);
    assert_eq!(pass_gen::config::parse_u32(&"-1".to_string()), None);
    assert_eq!(pass_gen::config::parse_u32(&"1 2".to_string()), None);
}

#[test]
fn count_accepts_a_leading_plus_sign() {
    let c = Config::new(&args(&["pass-gen", "-c", "+7"])).unwrap();
    assert_eq!(c.token_count, 7);
}

#[test]
fn plus_zero_is_still_rejected() {
    let r = Config::new(&args(&["pass-gen", "-c", "+0"]));
    assert!(matches!(r, Err(ConfigError::InvalidCount(_, _))));
}

#[test]
fn parse_u32_plus_sign_forms() {
    assert_eq!(pass_gen::config::parse_u32(&"+7".to_string()), Some(7));
    assert_eq!(pass_gen::config::parse_u32(&"+0".to_string()), Some(0));
    assert_eq!(
        pass_gen::config::parse_u32(&"+4294967295".to_string()),
        Some(u32::MAX)
    );
    assert_eq!(pass_gen::config::parse_u32(&"+".to_string()), None);
    assert_eq!(pass_gen::config::parse_u32(&"++7".to_string()), None);
    assert_eq!(pass_gen::config::parse_u32(&"7+".to_string()), None);
}
