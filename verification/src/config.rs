//! Configuration: a flat record built by folding over the argument list.
//!
//! A later `--preset` resets the preset-scoped fields (count, separator,
//! pool) while preserving the `report` flag; every malformed argument is
//! reported as a `ConfigError` naming the offending flag or value.

use vstd::prelude::*;
use vstd::string::*;

verus! {

/// Which pool the configuration selects: a built-in preset, or a file
/// to be loaded by the caller.
#[derive(Debug)]
pub enum PoolSpec {
    Word,
    Ascii,
    Number,
    File(String),
}

/// Mathematical image of `PoolSpec`.
pub enum PoolV {
    Word,
    Ascii,
    Number,
    File(Seq<char>),
}

impl View for PoolSpec {
    type V = PoolV;

    open spec fn view(&self) -> PoolV {
        match self {
            PoolSpec::Word => PoolV::Word,
            PoolSpec::Ascii => PoolV::Ascii,
            PoolSpec::Number => PoolV::Number,
            PoolSpec::File(p) => PoolV::File(p@),
        }
    }
}

/// The full configuration of one invocation.
#[derive(Debug)]
pub struct Config {
    pub report: bool,
    pub token_count: u32,
    pub token_sep: String,
    pub pool: PoolSpec,
}

/// Mathematical image of `Config`.
pub struct ConfigV {
    pub report: bool,
    pub token_count: u32,
    pub token_sep: Seq<char>,
    pub pool: PoolV,
}

impl View for Config {
    type V = ConfigV;

    open spec fn view(&self) -> ConfigV {
        ConfigV {
            report: self.report,
            token_count: self.token_count,
            token_sep: self.token_sep@,
            pool: self.pool@,
        }
    }
}

/// A rejected argument list: each variant carries the text it complains of.
#[derive(Debug)]
pub enum ConfigError {
    InvalidOption(String),
    MissingArgument(String),
    InvalidCount(String, String),
    InvalidPreset(String),
}

/// Mathematical image of `ConfigError`.
pub enum ErrV {
    InvalidOption(Seq<char>),
    MissingArgument(Seq<char>),
    InvalidCount(Seq<char>, Seq<char>),
    InvalidPreset(Seq<char>),
}

impl View for ConfigError {
    type V = ErrV;

    open spec fn view(&self) -> ErrV {
        match self {
            ConfigError::InvalidOption(s) => ErrV::InvalidOption(s@),
            ConfigError::MissingArgument(s) => ErrV::MissingArgument(s@),
            ConfigError::InvalidCount(f, v) => ErrV::InvalidCount(f@, v@),
            ConfigError::InvalidPreset(s) => ErrV::InvalidPreset(s@),
        }
    }
}

/// Preset defaults: token count per preset.
pub open spec fn preset_count(p: PoolV) -> u32 {
    match p {
        PoolV::Word => 6u32,
        PoolV::Ascii => 16u32,
        PoolV::Number => 8u32,
        PoolV::File(_) => 6u32,
    }
}

/// Preset defaults: separator per preset.
pub open spec fn preset_sep(p: PoolV) -> Seq<char> {
    match p {
        PoolV::Word => "-"@,
        _ => ""@,
    }
}

/// The configuration a preset resets to, keeping the report flag.
pub open spec fn preset_config(report: bool, p: PoolV) -> ConfigV {
    ConfigV { report, token_count: preset_count(p), token_sep: preset_sep(p), pool: p }
}

/// The configuration before any argument is read: the word preset.
pub open spec fn default_config() -> ConfigV {
    preset_config(false, PoolV::Word)
}

/// A decimal digit.
pub open spec fn is_digit(c: char) -> bool {
    48 <= c as u32 && c as u32 <= 57
}

pub open spec fn all_digits(s: Seq<char>) -> bool {
    forall|i: int| 0 <= i < s.len() ==> is_digit(#[trigger] s[i])
}

/// The integer written by a sequence of decimal digits.
pub open spec fn digits_val(s: Seq<char>) -> int
    decreases s.len(),
{
    if s.len() == 0 {
        0
    } else {
        digits_val(s.drop_last()) * 10 + (s.last() as u32 - 48)
    }
}

/// The digits of a count argument: an optional leading `+` sign is
/// allowed before them.
pub open spec fn digits_part(s: Seq<char>) -> Seq<char> {
    if s.len() > 0 && s[0] == '+' {
        s.subrange(1, s.len() as int)
    } else {
        s
    }
}

/// What `u32` parsing yields: `Some` exactly when an optional `+` sign
/// is followed by one or more digits whose value fits.
pub open spec fn parse_u32_spec(s: Seq<char>) -> Option<u32> {
    let t = digits_part(s);
    if t.len() > 0 && all_digits(t) && digits_val(t) <= u32::MAX {
        Some(digits_val(t) as u32)
    } else {
        None
    }
}

proof fn lemma_digits_val_nonneg(s: Seq<char>)
    requires
        all_digits(s),
    ensures
        digits_val(s) >= 0,
    decreases s.len(),
{
    if s.len() > 0 {
        assert(is_digit(s[s.len() - 1]));
        assert(all_digits(s.drop_last()));
        lemma_digits_val_nonneg(s.drop_last());
    }
}

/// A digit string is worth at least any of its prefixes.
proof fn lemma_digits_prefix_le(s: Seq<char>, i: int)
    requires
        all_digits(s),
        0 <= i <= s.len(),
    ensures
        digits_val(s.subrange(0, i)) <= digits_val(s),
    decreases s.len() - i,
{
    if i == s.len() {
        assert(s.subrange(0, i) =~= s);
    } else {
        let p = s.subrange(0, i);
        let q = s.subrange(0, i + 1);
        assert(q.drop_last() =~= p);
        assert(q.last() == s[i]);
        assert(all_digits(p)) by {
            assert(forall|k: int| 0 <= k < p.len() ==> p[k] == s[k]);
        }
        lemma_digits_val_nonneg(p);
        assert(is_digit(s[i]));
        assert(digits_val(q) == digits_val(p) * 10 + (s[i] as u32 - 48));
        assert(digits_val(p) * 10 >= digits_val(p)) by (nonlinear_arith)
            requires digits_val(p) >= 0;
        lemma_digits_prefix_le(s, i + 1);
    }
}

/// Parse a decimal `u32` with an optional leading `+`, exactly as
/// `parse_u32_spec` says.
pub fn parse_u32(s: &String) -> (r: Option<u32>)
    ensures
        r == parse_u32_spec(s@),
{
    let n = s.as_str().unicode_len();
    let start: usize = if n > 0 && s.as_str().get_char(0) == '+' {
        1
    } else {
        0
    };
    let ghost t = digits_part(s@);
    proof {
        assert(t =~= s@.subrange(start as int, n as int));
    }
    if start >= n {
        return None;
    }
    let mut acc: u32 = 0;
    let mut i: usize = start;
    while i < n
        invariant
            start <= i <= n,
            n == s@.len(),
            t == digits_part(s@),
            t == s@.subrange(start as int, n as int),
            all_digits(t.subrange(0, i - start)),
            acc == digits_val(t.subrange(0, i - start)),
        decreases n - i,
    {
        let c = s.as_str().get_char(i);
        proof {
            assert(t[i - start] == s@[i as int]);
        }
        let v = c as u32;
        if v < 48 || v > 57 {
            assert(!is_digit(t[i - start]));
            return None;
        }
        let d = v - 48;
        if acc > (u32::MAX - d) / 10 {
            proof {
                let q = t.subrange(0, i + 1 - start);
                assert(q.drop_last() =~= t.subrange(0, i - start));
                assert(q.last() == t[i - start]);
                assert(digits_val(q) == acc * 10 + d);
                assert(acc * 10 + d > u32::MAX) by (nonlinear_arith)
                    requires
                        acc > (u32::MAX - d) / 10,
                        0 <= d <= 9;
                if all_digits(t) {
                    lemma_digits_prefix_le(t, i + 1 - start);
                }
            }
            return None;
        }
        proof {
            let q = t.subrange(0, i + 1 - start);
            assert(q.drop_last() =~= t.subrange(0, i - start));
            assert(q.last() == t[i - start]);
            assert(is_digit(t[i - start]));
        }
        acc = acc * 10 + d;
        i += 1;
    }
    assert(t.subrange(0, n - start) =~= t);
    Some(acc)
}

/// One step of the argument fold, from position `i` with the
/// configuration built so far.
pub open spec fn parse_args_from(args: Seq<Seq<char>>, i: int, cur: ConfigV) -> Result<
    ConfigV,
    ErrV,
>
    decreases args.len() - i,
{
    if i < 0 || i >= args.len() {
        Ok(cur)
    } else {
        let flag = args[i];
        if flag == "-r"@ || flag == "--report"@ {
            parse_args_from(args, i + 1, (ConfigV { report: true, ..cur }))
        } else if flag == "-c"@ || flag == "--count"@ {
            if i + 1 >= args.len() {
                Err(ErrV::MissingArgument(flag))
            } else {
                match parse_u32_spec(args[i + 1]) {
                    Some(n) => if n >= 1 {
                        parse_args_from(args, i + 2, (ConfigV { token_count: n, ..cur }))
                    } else {
                        Err(ErrV::InvalidCount(flag, args[i + 1]))
                    },
                    None => Err(ErrV::InvalidCount(flag, args[i + 1])),
                }
            }
        } else if flag == "-s"@ || flag == "--sep"@ {
            if i + 1 >= args.len() {
                Err(ErrV::MissingArgument(flag))
            } else {
                parse_args_from(args, i + 2, (ConfigV { token_sep: args[i + 1], ..cur }))
            }
        } else if flag == "-f"@ || flag == "--file"@ {
            if i + 1 >= args.len() {
                Err(ErrV::MissingArgument(flag))
            } else {
                parse_args_from(args, i + 2, (ConfigV { pool: PoolV::File(args[i + 1]), ..cur }))
            }
        } else if flag == "-p"@ || flag == "--preset"@ {
            if i + 1 >= args.len() {
                Err(ErrV::MissingArgument(flag))
            } else {
                let p = args[i + 1];
                if p == "ascii"@ {
                    parse_args_from(args, i + 2, preset_config(cur.report, PoolV::Ascii))
                } else if p == "number"@ {
                    parse_args_from(args, i + 2, preset_config(cur.report, PoolV::Number))
                } else if p == "word"@ {
                    parse_args_from(args, i + 2, preset_config(cur.report, PoolV::Word))
                } else {
                    Err(ErrV::InvalidPreset(p))
                }
            }
        } else {
            Err(ErrV::InvalidOption(flag))
        }
    }
}

/// What parsing a whole argument list yields. The first entry is the
/// program name and is skipped.
pub open spec fn parse_args_spec(args: Seq<Seq<char>>) -> Result<ConfigV, ErrV> {
    parse_args_from(args, 1, default_config())
}

/// The image of an executable parse result.
pub open spec fn parse_result_view(r: Result<Config, ConfigError>) -> Result<ConfigV, ErrV> {
    match r {
        Ok(c) => Ok(c@),
        Err(e) => Err(e@),
    }
}

/// String comparison against a literal.
fn str_eq(a: &String, b: &str) -> (r: bool)
    ensures
        r == (a@ == b@),
{
    let bs = String::from_str(b);
    a.eq(&bs)
}

impl Default for Config {
    /// The word preset with no report.
    fn default() -> (r: Self)
        ensures
            r@ == default_config(),
    {
        Config {
            report: false,
            token_count: 6,
            token_sep: String::from_str("-"),
            pool: PoolSpec::Word,
        }
    }
}

impl Config {
    /// The defaults a preset resets to.
    fn preset(report: bool, pool: PoolSpec) -> (r: Self)
        requires
            !(pool@ is File),
        ensures
            r@ == preset_config(report, pool@),
    {
        match pool {
            PoolSpec::Word => Config {
                report,
                token_count: 6,
                token_sep: String::from_str("-"),
                pool: PoolSpec::Word,
            },
            PoolSpec::Ascii => Config {
                report,
                token_count: 16,
                token_sep: String::from_str(""),
                pool: PoolSpec::Ascii,
            },
            PoolSpec::Number => Config {
                report,
                token_count: 8,
                token_sep: String::from_str(""),
                pool: PoolSpec::Number,
            },
            PoolSpec::File(p) => Config {
                report,
                token_count: 6,
                token_sep: String::from_str("-"),
                pool: PoolSpec::Word,
            },
        }
    }

    /// Fold the argument list (skipping the program name) into a
    /// configuration, or the first error met, exactly as
    /// `parse_args_spec` says.
    pub fn new(args: &Vec<String>) -> (r: Result<Config, ConfigError>)
        ensures
            parse_result_view(r) == parse_args_spec(args.deep_view()),
    {
        let mut c = Config::default();
        let mut idx: usize = 1;
        let n = args.len();
        while idx < n
            invariant
                n == args.len(),
                parse_args_from(args.deep_view(), idx as int, c@) == parse_args_spec(
                    args.deep_view(),
                ),
            decreases n - idx,
        {
            proof {
                assert(args.deep_view()[idx as int] == args@[idx as int]@);
            }
            let flag = &args[idx];
            if str_eq(flag, "-r") || str_eq(flag, "--report") {
                c.report = true;
                idx = idx + 1;
            } else if str_eq(flag, "-c") || str_eq(flag, "--count") {
                if idx + 1 >= n {
                    return Err(ConfigError::MissingArgument(flag.clone()));
                }
                proof {
                    assert(args.deep_view()[idx + 1] == args@[idx + 1]@);
                }
                match parse_u32(&args[idx + 1]) {
                    Some(k) => {
                        if k >= 1 {
                            c.token_count = k;
                            idx = idx + 2;
                        } else {
                            return Err(
                                ConfigError::InvalidCount(flag.clone(), args[idx + 1].clone()),
                            );
                        }
                    },
                    None => {
                        return Err(ConfigError::InvalidCount(flag.clone(), args[idx + 1].clone()));
                    },
                }
            } else if str_eq(flag, "-s") || str_eq(flag, "--sep") {
                if idx + 1 >= n {
                    return Err(ConfigError::MissingArgument(flag.clone()));
                }
                proof {
                    assert(args.deep_view()[idx + 1] == args@[idx + 1]@);
                }
                c.token_sep = args[idx + 1].clone();
                idx = idx + 2;
            } else if str_eq(flag, "-f") || str_eq(flag, "--file") {
                if idx + 1 >= n {
                    return Err(ConfigError::MissingArgument(flag.clone()));
                }
                proof {
                    assert(args.deep_view()[idx + 1] == args@[idx + 1]@);
                }
                c.pool = PoolSpec::File(args[idx + 1].clone());
                idx = idx + 2;
            } else if str_eq(flag, "-p") || str_eq(flag, "--preset") {
                if idx + 1 >= n {
                    return Err(ConfigError::MissingArgument(flag.clone()));
                }
                proof {
                    assert(args.deep_view()[idx + 1] == args@[idx + 1]@);
                }
                let p = &args[idx + 1];
                if str_eq(p, "ascii") {
                    c = Config::preset(c.report, PoolSpec::Ascii);
                    idx = idx + 2;
                } else if str_eq(p, "number") {
                    c = Config::preset(c.report, PoolSpec::Number);
                    idx = idx + 2;
                } else if str_eq(p, "word") {
                    c = Config::preset(c.report, PoolSpec::Word);
                    idx = idx + 2;
                } else {
                    return Err(ConfigError::InvalidPreset(p.clone()));
                }
            } else {
                return Err(ConfigError::InvalidOption(flag.clone()));
            }
        }
        Ok(c)
    }
}

/// The message each error is reported with.
pub open spec fn message_spec(e: ErrV) -> Seq<char> {
    match e {
        ErrV::InvalidOption(s) => "invalid option \""@ + s + "\""@,
        ErrV::MissingArgument(s) => "missing argument to "@ + s,
        ErrV::InvalidCount(f, v) => "invalid argument to \""@ + f
            + "\", expected positive number got \""@ + v + "\""@,
        ErrV::InvalidPreset(s) => "invalid preset \""@ + s + "\""@,
    }
}

impl ConfigError {
    /// The diagnostic text for this error, exactly `message_spec`.
    pub fn message(&self) -> (r: String)
        ensures
            r@ == message_spec(self@),
    {
        match self {
            ConfigError::InvalidOption(s) => {
                let mut m = String::from_str("invalid option \"");
                m.append(s.as_str());
                m.append("\"");
                m
            },
            ConfigError::MissingArgument(s) => {
                let mut m = String::from_str("missing argument to ");
                m.append(s.as_str());
                m
            },
            ConfigError::InvalidCount(f, v) => {
                let mut m = String::from_str("invalid argument to \"");
                m.append(f.as_str());
                m.append("\", expected positive number got \"");
                m.append(v.as_str());
                m.append("\"");
                m
            },
            ConfigError::InvalidPreset(s) => {
                let mut m = String::from_str("invalid preset \"");
                m.append(s.as_str());
                m.append("\"");
                m
            },
        }
    }
}

} // verus!
