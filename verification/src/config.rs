//! Reading the command-line options into a configuration.
use vstd::prelude::*;
use crate::text::{chars_of, slice_eq, starts_with, starts_with_exec};
use crate::types::{strings_view, NexusConfig};

verus! {

pub open spec fn is_digit(c: char) -> bool {
    '0' <= c && c <= '9'
}

pub open spec fn all_digits(s: Seq<char>) -> bool {
    forall|i: int| 0 <= i < s.len() ==> is_digit(#[trigger] s[i])
}

/// The number written by a string of decimal digits.
pub open spec fn digits_value(s: Seq<char>) -> int
    decreases s.len(),
{
    if s.len() == 0 {
        0
    } else {
        digits_value(s.drop_last()) * 10 + (s.last() as u32 - '0' as u32)
    }
}

/// `usize::from_str`: an optional `+`, then one or more decimal digits, with a
/// value that fits.
pub open spec fn parse_usize(s: Seq<char>) -> Option<usize> {
    let d = if s.len() > 0 && s[0] == '+' {
        s.drop_first()
    } else {
        s
    };
    if d.len() > 0 && all_digits(d) && digits_value(d) <= usize::MAX {
        Some(digits_value(d) as usize)
    } else {
        None
    }
}

pub proof fn lemma_digits_value_nonneg(s: Seq<char>)
    requires
        all_digits(s),
    ensures
        digits_value(s) >= 0,
    decreases s.len(),
{
    if s.len() > 0 {
        lemma_digits_value_nonneg(s.drop_last());
    }
}

pub proof fn lemma_digits_value_grows(s: Seq<char>, k: int)
    requires
        all_digits(s),
        0 <= k <= s.len(),
    ensures
        digits_value(s.subrange(0, k)) <= digits_value(s),
    decreases s.len() - k,
{
    if k < s.len() {
        lemma_digits_value_grows(s, k + 1);
        let t = s.subrange(0, k + 1);
        assert(t.drop_last() =~= s.subrange(0, k));
        assert(all_digits(t.drop_last()));
        lemma_digits_value_nonneg(t.drop_last());
        assert(is_digit(t.last()));
    } else {
        assert(s.subrange(0, k) =~= s);
    }
}

/// Reads an unsigned decimal number as `usize::from_str` does.
pub fn parse_usize_exec(s: &[char]) -> (r: Option<usize>)
    ensures
        r == parse_usize(s@),
{
    let start: usize = if s.len() > 0 && s[0] == '+' {
        1
    } else {
        0
    };
    let d = vstd::slice::slice_subrange(s, start, s.len());
    assert(d@ == if s@.len() > 0 && s@[0] == '+' {
        s@.drop_first()
    } else {
        s@
    });
    if d.len() == 0 {
        return None;
    }
    let mut v: usize = 0;
    let mut k: usize = 0;
    while k < d.len()
        invariant
            d@ == if s@.len() > 0 && s@[0] == '+' {
                s@.drop_first()
            } else {
                s@
            },
            d@.len() > 0,
            0 <= k <= d@.len(),
            all_digits(d@.subrange(0, k as int)),
            v == digits_value(d@.subrange(0, k as int)),
        decreases d@.len() - k,
    {
        let c = d[k];
        let ghost t = d@.subrange(0, k + 1);
        assert(t.drop_last() =~= d@.subrange(0, k as int));
        if !('0' <= c && c <= '9') {
            assert(!all_digits(d@)) by {
                assert(!is_digit(d@[k as int]));
            }
            return None;
        }
        let digit = (c as u32 - '0' as u32) as usize;
        assert(all_digits(t)) by {
            assert forall|i: int| 0 <= i < t.len() implies is_digit(#[trigger] t[i]) by {
                if i < k {
                    assert(t[i] == d@.subrange(0, k as int)[i]);
                }
            }
        }
        if v > (usize::MAX - digit) / 10 {
            proof {
                assert(digits_value(t) == v * 10 + digit);
                assert(v * 10 + digit > usize::MAX) by (nonlinear_arith)
                    requires
                        v > (usize::MAX - digit) / 10,
                        digit <= 9,
                ;
                if all_digits(d@) {
                    lemma_digits_value_grows(d@, k + 1);
                }
            }
            return None;
        }
        proof {
            assert(v * 10 + digit <= usize::MAX) by (nonlinear_arith)
                requires
                    v <= (usize::MAX - digit) / 10,
                    digit <= 9,
            ;
        }
        v = v * 10 + digit;
        k = k + 1;
    }
    assert(d@.subrange(0, k as int) =~= d@);
    Some(v)
}

// ---------------------------------------------------------------- options

/// What the options add to the default configuration.
pub struct ArgsModel {
    pub paths: Seq<Seq<char>>,
    pub excludes: Seq<Seq<char>>,
    pub exts: Seq<Seq<char>>,
    pub depth: Option<usize>,
}

pub open spec fn opt_exclude() -> Seq<char> {
    seq!['-', '-', 'e', 'x', 'c', 'l', 'u', 'd', 'e']
}

pub open spec fn opt_depth() -> Seq<char> {
    seq!['-', '-', 'd', 'e', 'p', 't', 'h']
}

pub open spec fn opt_ext() -> Seq<char> {
    seq!['-', '-', 'e', 'x', 't']
}

/// Reads the options from position `i` on: `--exclude P`, `--depth N` and
/// `--ext E` take the next argument; any other argument starting with `-` is
/// refused; the rest are paths.
pub open spec fn parse_args_from(args: Seq<Seq<char>>, i: int, acc: ArgsModel) -> Result<ArgsModel, Seq<char>>
    decreases args.len() - i,
{
    if i < 0 || i >= args.len() {
        Ok(acc)
    } else if args[i] == opt_exclude() && i + 1 < args.len() {
        parse_args_from(args, i + 2, ArgsModel { excludes: acc.excludes.push(args[i + 1]), ..acc })
    } else if args[i] == opt_depth() && i + 1 < args.len() {
        match parse_usize(args[i + 1]) {
            Some(d) => parse_args_from(args, i + 2, ArgsModel { depth: Some(d), ..acc }),
            None => Err("Invalid depth: "@ + args[i + 1]),
        }
    } else if args[i] == opt_ext() && i + 1 < args.len() {
        parse_args_from(args, i + 2, ArgsModel { exts: acc.exts.push(args[i + 1]), ..acc })
    } else if starts_with(args[i], seq!['-']) {
        Err("Unknown option: "@ + args[i])
    } else {
        parse_args_from(args, i + 1, ArgsModel { paths: acc.paths.push(args[i]), ..acc })
    }
}

pub open spec fn parse_args(args: Seq<Seq<char>>) -> Result<ArgsModel, Seq<char>> {
    parse_args_from(args, 0, ArgsModel { paths: seq![], excludes: seq![], exts: seq![], depth: None })
}

pub open spec fn default_excludes() -> Seq<Seq<char>> {
    seq![
        "node_modules"@,
        "target"@,
        ".git"@,
        "__pycache__"@,
        ".venv"@,
        "vendor"@,
        "dist"@,
        "build"@,
    ]
}

pub open spec fn default_exts() -> Seq<Seq<char>> {
    seq!["rs"@, "py"@, "js"@, "jsx"@, "ts"@, "tsx"@, "go"@]
}

/// The configuration is the default one with the options applied: paths given
/// replace `.`, patterns and extensions are added, the last depth counts.
pub open spec fn config_matches(c: NexusConfig, m: ArgsModel) -> bool {
    &&& strings_view(c.paths@) == if m.paths.len() > 0 {
        m.paths
    } else {
        seq!["."@]
    }
    &&& strings_view(c.exclude_patterns@) == default_excludes() + m.excludes
    &&& strings_view(c.include_extensions@) == default_exts() + m.exts
    &&& c.max_depth == match m.depth {
        Some(d) => d,
        None => usize::MAX,
    }
    &&& c.detect_tests
    &&& c.detect_circular
    &&& c.format == crate::types::OutputFormat::Terminal
}

fn push_string(v: &mut Vec<String>, s: &String)
    ensures
        strings_view(final(v)@) == strings_view(old(v)@).push(s@),
{
    let ghost before = strings_view(v@);
    v.push(s.clone());
    assert(strings_view(v@) =~= before.push(s@));
}

/// Reads the command-line options after the command.
pub fn parse_config(args: &[String]) -> (r: Result<NexusConfig, String>)
    ensures
        match r {
            Ok(c) => parse_args(strings_view(args@)) matches Ok(m) && config_matches(c, m),
            Err(e) => parse_args(strings_view(args@)) == Err::<ArgsModel, Seq<char>>(e@),
        },
{
    let ghost av = strings_view(args@);
    let mut config = NexusConfig::default();
    let mut paths: Vec<String> = Vec::new();
    let mut i: usize = 0;
    let ex: [char; 9] = ['-', '-', 'e', 'x', 'c', 'l', 'u', 'd', 'e'];
    let dp: [char; 7] = ['-', '-', 'd', 'e', 'p', 't', 'h'];
    let et: [char; 5] = ['-', '-', 'e', 'x', 't'];
    let dash: [char; 1] = ['-'];
    assert(ex@ == opt_exclude() && dp@ == opt_depth() && et@ == opt_ext() && dash@ == seq!['-']);
    let ghost mut acc = ArgsModel { paths: seq![], excludes: seq![], exts: seq![], depth: None };
    while i < args.len()
        invariant
            av == strings_view(args@),
            ex@ == opt_exclude() && dp@ == opt_depth() && et@ == opt_ext() && dash@ == seq!['-'],
            0 <= i <= args@.len(),
            parse_args(av) == parse_args_from(av, i as int, acc),
            strings_view(paths@) == acc.paths,
            strings_view(config.exclude_patterns@) == default_excludes() + acc.excludes,
            strings_view(config.include_extensions@) == default_exts() + acc.exts,
            config.max_depth == match acc.depth {
                Some(d) => d,
                None => usize::MAX,
            },
            strings_view(config.paths@) == seq!["."@],
            config.detect_tests,
            config.detect_circular,
            config.format == crate::types::OutputFormat::Terminal,
        decreases args@.len() - i,
    {
        let a = chars_of(args[i].as_str());
        let a = a.as_slice();
        assert(a@ == av[i as int]);
        let has_next = i + 1 < args.len();
        if slice_eq(a, &ex) && has_next {
            assert(av[i + 1] == args@[i + 1]@);
            push_string(&mut config.exclude_patterns, &args[i + 1]);
            proof {
                acc = ArgsModel { excludes: acc.excludes.push(av[i + 1]), ..acc };
                assert(default_excludes() + acc.excludes =~= (default_excludes() + acc.excludes.drop_last()).push(av[i + 1]));
            }
            i = i + 2;
        } else if slice_eq(a, &dp) && has_next {
            let n = chars_of(args[i + 1].as_str());
            assert(n@ == av[i + 1]);
            match parse_usize_exec(n.as_slice()) {
                Some(d) => {
                    config.max_depth = d;
                    proof {
                        acc = ArgsModel { depth: Some(d), ..acc };
                    }
                    i = i + 2;
                },
                None => {
                    let mut e = "Invalid depth: ".to_owned();
                    e.append(args[i + 1].as_str());
                    return Err(e);
                },
            }
        } else if slice_eq(a, &et) && has_next {
            assert(av[i + 1] == args@[i + 1]@);
            push_string(&mut config.include_extensions, &args[i + 1]);
            proof {
                acc = ArgsModel { exts: acc.exts.push(av[i + 1]), ..acc };
                assert(default_exts() + acc.exts =~= (default_exts() + acc.exts.drop_last()).push(av[i + 1]));
            }
            i = i + 2;
        } else if starts_with_exec(a, &dash) {
            let mut e = "Unknown option: ".to_owned();
            e.append(args[i].as_str());
            return Err(e);
        } else {
            push_string(&mut paths, &args[i]);
            proof {
                acc = ArgsModel { paths: acc.paths.push(av[i as int]), ..acc };
            }
            i = i + 1;
        }
    }
    if paths.len() > 0 {
        config.paths = paths;
    }
    Ok(config)
}

} // verus!
