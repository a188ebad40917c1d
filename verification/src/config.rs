//! Command-line arguments: the port, the directory to serve, the address to
//! bind, and the help and version flags.

use vstd::prelude::*;
use crate::text::{push_str, str_chars, str_eq, string_of};

verus! {

/// The package name shown by `--version`.
pub const PKG_NAME: &'static str = "simple-http-server";

/// The package version shown by `--version`.
pub const PKG_VERSION: &'static str = "0.1.0";

/// How the server is to run: the directory it serves, the address it binds
/// and the port it listens on.
#[derive(Debug, PartialEq, Eq)]
pub struct Config {
    /// The directory to serve.
    pub dir: String,
    /// The IP address to bind.
    pub bind: String,
    /// The TCP port to listen on.
    pub port: u16,
}

/// What the command line asks for.
#[derive(Debug, PartialEq, Eq)]
pub enum Action {
    /// Serve with this configuration.
    Run(Config),
    /// Show the usage text.
    ShowHelp,
    /// Show the name and version.
    ShowVersion,
}

/// The meaning of an [`Action`].
pub enum SpecAction {
    Run { dir: Seq<char>, bind: Seq<char>, port: u16 },
    ShowHelp,
    ShowVersion,
}

impl View for Action {
    type V = SpecAction;

    open spec fn view(&self) -> SpecAction {
        match self {
            Action::Run(c) => SpecAction::Run { dir: c.dir@, bind: c.bind@, port: c.port },
            Action::ShowHelp => SpecAction::ShowHelp,
            Action::ShowVersion => SpecAction::ShowVersion,
        }
    }
}

/// Whether every character of `s` is an ASCII decimal digit.
pub open spec fn all_digits(s: Seq<char>) -> bool {
    forall|i: int| 0 <= i < s.len() ==> '0' <= #[trigger] s[i] <= '9'
}

/// The number that a string of decimal digits spells.
pub open spec fn digits_value(s: Seq<char>) -> int
    decreases s.len(),
{
    if s.len() == 0 {
        0
    } else {
        digits_value(s.drop_last()) * 10 + (s.last() as int - 48)
    }
}

/// A port number as `str::parse::<u16>` reads it: an optional `+` and then
/// one or more decimal digits whose value fits in 16 bits.
pub open spec fn parse_port(s: Seq<char>) -> Option<u16> {
    let d = if s.len() > 0 && s[0] == '+' {
        s.drop_first()
    } else {
        s
    };
    if d.len() > 0 && all_digits(d) && digits_value(d) <= 65535 {
        Some(digits_value(d) as u16)
    } else {
        None
    }
}

proof fn lemma_digits_value_grows(s: Seq<char>, k: int)
    requires
        all_digits(s),
        0 <= k <= s.len(),
    ensures
        0 <= digits_value(s.take(k)) <= digits_value(s),
    decreases s.len(),
{
    if s.len() > 0 {
        assert(all_digits(s.drop_last())) by {
            assert forall|i: int| 0 <= i < s.drop_last().len() implies '0' <= #[trigger] s.drop_last()[i] <= '9' by {
                assert(s.drop_last()[i] == s[i]);
            }
        }
        assert('0' <= s[s.len() - 1] <= '9');
        if k == s.len() {
            assert(s.take(k) =~= s);
            lemma_digits_value_grows(s.drop_last(), 0);
        } else {
            lemma_digits_value_grows(s.drop_last(), k);
            assert(s.drop_last().take(k) =~= s.take(k));
        }
    } else {
        assert(s.take(k) =~= s);
    }
}

/// Reads a port number (see [`parse_port`]).
pub fn parse_port_number(s: &str) -> (r: Option<u16>)
    ensures
        r == parse_port(s@),
{
    let cs = str_chars(s);
    let mut start: usize = 0;
    if cs.len() > 0 && cs[0] == '+' {
        start = 1;
    }
    let ghost d = if s@.len() > 0 && s@[0] == '+' {
        s@.drop_first()
    } else {
        s@
    };
    assert(d =~= cs@.subrange(start as int, cs@.len() as int));
    if start == cs.len() {
        return None;
    }
    let mut value: u32 = 0;
    let mut i = start;
    assert(d.take(0) =~= Seq::<char>::empty());
    while i < cs.len()
        invariant
            start <= i <= cs@.len(),
            cs@ == s@,
            d == (if s@.len() > 0 && s@[0] == '+' {
                s@.drop_first()
            } else {
                s@
            }),
            d == cs@.subrange(start as int, cs@.len() as int),
            all_digits(d.take(i - start)),
            value == digits_value(d.take(i - start)),
            value <= 65535,
        decreases cs@.len() - i,
    {
        let c = cs[i];
        assert(c == d[i - start]);
        assert(d.take(i - start + 1).drop_last() =~= d.take(i - start));
        if !('0' <= c && c <= '9') {
            assert(!all_digits(d)) by {
                assert(d[i - start] == c);
            }
            return None;
        }
        let digit = (c as u32) - 48;
        value = value * 10 + digit;
        assert(all_digits(d.take(i - start + 1))) by {
            assert forall|j: int| 0 <= j < d.take(i - start + 1).len() implies '0' <= #[trigger] d.take(i - start + 1)[j] <= '9' by {
                if j < i - start {
                    assert(d.take(i - start + 1)[j] == d.take(i - start)[j]);
                }
            }
        }
        if value > 65535 {
            proof {
                if all_digits(d) {
                    lemma_digits_value_grows(d, i - start + 1);
                }
            }
            return None;
        }
        i = i + 1;
    }
    assert(d.take(i - start) =~= d);
    Some(value as u16)
}

/// What the arguments from position `i` on make of the settings gathered so
/// far: `-d`/`--dir` and `-b`/`--bind` take the next argument as their value;
/// `-v`/`--version` and `-h`/`--help` stop the parse; the first argument not
/// starting with `-` is the port; anything else is an error.
pub open spec fn parse_from(
    args: Seq<Seq<char>>,
    i: int,
    dir: Seq<char>,
    bind: Seq<char>,
    port: u16,
    port_set: bool,
) -> Result<SpecAction, Seq<char>>
    decreases args.len() - i,
{
    if i >= args.len() || i < 0 {
        Ok(SpecAction::Run { dir, bind, port })
    } else {
        let a = args[i];
        if a == "-d"@ || a == "--dir"@ {
            if i + 1 >= args.len() {
                Err(a + " requires a value"@)
            } else {
                parse_from(args, i + 2, args[i + 1], bind, port, port_set)
            }
        } else if a == "-b"@ || a == "--bind"@ {
            if i + 1 >= args.len() {
                Err(a + " requires a value"@)
            } else {
                parse_from(args, i + 2, dir, args[i + 1], port, port_set)
            }
        } else if a == "-v"@ || a == "--version"@ {
            Ok(SpecAction::ShowVersion)
        } else if a == "-h"@ || a == "--help"@ {
            Ok(SpecAction::ShowHelp)
        } else if !(a.len() > 0 && a[0] == '-') && !port_set {
            match parse_port(a) {
                Some(p) => parse_from(args, i + 1, dir, bind, p, true),
                None => Err("invalid port number: "@ + a),
            }
        } else {
            Err("unknown argument(s): "@ + a)
        }
    }
}

/// What a command line (without the program name) asks for; the directory
/// defaults to `.`, the address to `0.0.0.0` and the port to 8000.
pub open spec fn parse_args_spec(args: Seq<Seq<char>>) -> Result<SpecAction, Seq<char>> {
    parse_from(args, 0, "."@, "0.0.0.0"@, 8000, false)
}

/// The texts of a sequence of strings.
pub open spec fn arg_texts(args: Seq<String>) -> Seq<Seq<char>> {
    args.map_values(|a: String| a@)
}

fn starts_with_dash(s: &str) -> (r: bool)
    ensures
        r == (s@.len() > 0 && s@[0] == '-'),
{
    let cs = str_chars(s);
    cs.len() > 0 && cs[0] == '-'
}

fn message(arg: &str, text: &str, arg_first: bool) -> (m: String)
    ensures
        m@ == if arg_first {
            arg@ + text@
        } else {
            text@ + arg@
        },
{
    if arg_first {
        let mut m = string_of(arg);
        push_str(&mut m, text);
        m
    } else {
        let mut m = string_of(text);
        push_str(&mut m, arg);
        m
    }
}

/// Reads the command-line arguments (without the program name) into an
/// [`Action`], or an error message. The directory is returned as given; it is
/// not checked here.
pub fn parse_args_from(args: &[String]) -> (res: Result<Action, String>)
    ensures
        res matches Ok(a) ==> parse_args_spec(arg_texts(args@)) == Ok::<SpecAction, Seq<char>>(a@),
        res matches Err(e) ==> parse_args_spec(arg_texts(args@)) == Err::<SpecAction, Seq<char>>(e@),
{
    let ghost texts = arg_texts(args@);
    let mut dir = string_of(".");
    let mut bind = string_of("0.0.0.0");
    let mut port: u16 = 8000;
    let mut port_set = false;
    let mut i: usize = 0;
    while i < args.len()
        invariant
            texts == arg_texts(args@),
            texts.len() == args@.len(),
            i <= args@.len(),
            parse_args_spec(texts) == parse_from(texts, i as int, dir@, bind@, port, port_set),
        decreases args@.len() - i,
    {
        let a = args[i].as_str();
        assert(a@ == texts[i as int]);
        if str_eq(a, "-d") || str_eq(a, "--dir") {
            if i + 1 >= args.len() {
                return Err(message(a, " requires a value", true));
            }
            dir = args[i + 1].clone();
            assert(dir@ == texts[i + 1]);
            i = i + 2;
        } else if str_eq(a, "-b") || str_eq(a, "--bind") {
            if i + 1 >= args.len() {
                return Err(message(a, " requires a value", true));
            }
            bind = args[i + 1].clone();
            assert(bind@ == texts[i + 1]);
            i = i + 2;
        } else if str_eq(a, "-v") || str_eq(a, "--version") {
            return Ok(Action::ShowVersion);
        } else if str_eq(a, "-h") || str_eq(a, "--help") {
            return Ok(Action::ShowHelp);
        } else if !starts_with_dash(a) && !port_set {
            match parse_port_number(a) {
                Some(p) => {
                    port = p;
                    port_set = true;
                    i = i + 1;
                },
                None => {
                    return Err(message(a, "invalid port number: ", false));
                },
            }
        } else {
            return Err(message(a, "unknown argument(s): ", false));
        }
    }
    Ok(Action::Run(Config { dir, bind, port }))
}

/// What becomes of a configuration once its directory has been looked up:
/// `canonical` is the directory's canonical path or the text of the error
/// that prevented it, and `is_dir` tells whether that path is a directory.
pub open spec fn checked_config(
    dir: Seq<char>,
    canonical: Result<Seq<char>, Seq<char>>,
    is_dir: bool,
) -> Result<Seq<char>, Seq<char>> {
    match canonical {
        Err(e) => Err("cannot open directory '"@ + dir + "': "@ + e),
        Ok(c) => if is_dir {
            Ok(c)
        } else {
            Err("'"@ + c + "' is not directory"@)
        },
    }
}

/// Replaces the configured directory by its canonical path, or reports why
/// it cannot be served (see [`checked_config`]).
pub fn check_config_dir(config: Config, canonical: Result<String, String>, is_dir: bool) -> (res:
    Result<Config, String>)
    ensures
        res matches Ok(c) ==> checked_config(
            config.dir@,
            match canonical {
                Ok(c) => Ok(c@),
                Err(e) => Err(e@),
            },
            is_dir,
        ) == Ok::<Seq<char>, Seq<char>>(c.dir@) && c.bind == config.bind && c.port == config.port,
        res matches Err(m) ==> checked_config(
            config.dir@,
            match canonical {
                Ok(c) => Ok(c@),
                Err(e) => Err(e@),
            },
            is_dir,
        ) == Err::<Seq<char>, Seq<char>>(m@),
{
    match canonical {
        Err(e) => {
            let mut m = string_of("cannot open directory '");
            push_str(&mut m, config.dir.as_str());
            push_str(&mut m, "': ");
            push_str(&mut m, e.as_str());
            Err(m)
        },
        Ok(c) => {
            if is_dir {
                Ok(Config { dir: c, bind: config.bind, port: config.port })
            } else {
                let mut m = string_of("'");
                push_str(&mut m, c.as_str());
                push_str(&mut m, "' is not directory");
                Err(m)
            }
        },
    }
}

proof fn lemma_flags_start_with_dash()
    ensures
        "-d"@.len() > 0 && "-d"@[0] == '-',
        "--dir"@.len() > 0 && "--dir"@[0] == '-',
        "-b"@.len() > 0 && "-b"@[0] == '-',
        "--bind"@.len() > 0 && "--bind"@[0] == '-',
        "-v"@.len() > 0 && "-v"@[0] == '-',
        "--version"@.len() > 0 && "--version"@[0] == '-',
        "-h"@.len() > 0 && "-h"@[0] == '-',
        "--help"@.len() > 0 && "--help"@[0] == '-',
{
    reveal_strlit("-d");
    reveal_strlit("--dir");
    reveal_strlit("-b");
    reveal_strlit("--bind");
    reveal_strlit("-v");
    reveal_strlit("--version");
    reveal_strlit("-h");
    reveal_strlit("--help");
}

/// An argument that does not start with `-` is none of the flags.
proof fn lemma_not_a_flag(a: Seq<char>)
    requires
        !(a.len() > 0 && a[0] == '-'),
    ensures
        a != "-d"@ && a != "--dir"@ && a != "-b"@ && a != "--bind"@,
        a != "-v"@ && a != "--version"@ && a != "-h"@ && a != "--help"@,
{
    lemma_flags_start_with_dash();
}

/// Options can come before or after the port: an option with its value
/// followed by a port gives the same result as the port followed by the
/// option with its value.
pub proof fn lemma_option_order_irrelevant(flag: Seq<char>, value: Seq<char>, port: Seq<char>)
    requires
        flag == "-d"@ || flag == "--dir"@ || flag == "-b"@ || flag == "--bind"@,
        !(port.len() > 0 && port[0] == '-'),
    ensures
        parse_args_spec(seq![flag, value, port]) == parse_args_spec(seq![port, flag, value]),
{
    lemma_not_a_flag(port);
    let l = seq![flag, value, port];
    let r = seq![port, flag, value];
    reveal_with_fuel(parse_from, 3);
    assert(l[0] == flag && l[1] == value && l[2] == port);
    assert(r[0] == port && r[1] == flag && r[2] == value);
}

/// A help or version flag as the first argument decides the action,
/// whatever follows it.
pub proof fn lemma_leading_info_flag(flag: Seq<char>, rest: Seq<Seq<char>>)
    requires
        flag == "-h"@ || flag == "--help"@ || flag == "-v"@ || flag == "--version"@,
    ensures
        parse_args_spec(seq![flag] + rest) == if flag == "-h"@ || flag == "--help"@ {
            Ok::<SpecAction, Seq<char>>(SpecAction::ShowHelp)
        } else {
            Ok::<SpecAction, Seq<char>>(SpecAction::ShowVersion)
        },
{
    reveal_strlit("-d");
    reveal_strlit("--dir");
    reveal_strlit("-b");
    reveal_strlit("--bind");
    reveal_strlit("-v");
    reveal_strlit("--version");
    reveal_strlit("-h");
    reveal_strlit("--help");
    assert((seq![flag] + rest)[0] == flag);
    let d = "-d"@;
    let dir = "--dir"@;
    let b = "-b"@;
    let bind = "--bind"@;
    let v = "-v"@;
    let ver = "--version"@;
    let h = "-h"@;
    let help = "--help"@;
    assert(h != d && h != b && h != v && h[1] != dir[1] && h[1] != bind[1] && h[1] != ver[1]) by {
        assert(h[1] != d[1] && h[1] != b[1] && h[1] != v[1]);
    }
    assert(help != d && help != b && help != v && help != h) by {
        assert(help.len() != d.len());
    }
    assert(help[2] != dir[2] && help[2] != bind[2] && help[2] != ver[2]);
    assert(v != d && v != b && v[1] != dir[1] && v[1] != bind[1]) by {
        assert(v[1] != d[1] && v[1] != b[1]);
    }
    assert(ver != d && ver != b && ver[2] != dir[2] && ver[2] != bind[2]) by {
        assert(ver.len() != d.len());
    }
}

proof fn lemma_info_flag_after(
    pre: Seq<Seq<char>>,
    flag: Seq<char>,
    rest: Seq<Seq<char>>,
    i: int,
    dir: Seq<char>,
    bind: Seq<char>,
    port: u16,
    port_set: bool,
)
    requires
        flag == "-h"@ || flag == "--help"@ || flag == "-v"@ || flag == "--version"@,
        0 <= i <= pre.len(),
        parse_from(pre, i, dir, bind, port, port_set) is Ok,
        parse_from(pre, i, dir, bind, port, port_set)->Ok_0 is Run,
    ensures
        parse_from(pre + seq![flag] + rest, i, dir, bind, port, port_set) == if flag == "-h"@
            || flag == "--help"@ {
            Ok::<SpecAction, Seq<char>>(SpecAction::ShowHelp)
        } else {
            Ok::<SpecAction, Seq<char>>(SpecAction::ShowVersion)
        },
    decreases pre.len() - i,
{
    let all = pre + seq![flag] + rest;
    if i == pre.len() {
        assert(all[i] == flag);
        lemma_leading_info_flag(flag, rest);
        lemma_info_flags_differ();
    } else {
        let a = pre[i];
        assert(all[i] == a);
        if i + 1 < pre.len() {
            assert(all[i + 1] == pre[i + 1]);
        }
        if a == "-d"@ || a == "--dir"@ {
            lemma_info_flag_after(pre, flag, rest, i + 2, pre[i + 1], bind, port, port_set);
        } else if a == "-b"@ || a == "--bind"@ {
            lemma_info_flag_after(pre, flag, rest, i + 2, dir, pre[i + 1], port, port_set);
        } else if a == "-v"@ || a == "--version"@ {
        } else if a == "-h"@ || a == "--help"@ {
        } else if !(a.len() > 0 && a[0] == '-') && !port_set {
            if let Some(p) = parse_port(a) {
                lemma_info_flag_after(pre, flag, rest, i + 1, dir, bind, p, true);
            }
        }
    }
}

proof fn lemma_info_flags_differ()
    ensures
        "-h"@ != "-d"@ && "-h"@ != "--dir"@ && "-h"@ != "-b"@ && "-h"@ != "--bind"@ && "-h"@
            != "-v"@ && "-h"@ != "--version"@,
        "--help"@ != "-d"@ && "--help"@ != "--dir"@ && "--help"@ != "-b"@ && "--help"@
            != "--bind"@ && "--help"@ != "-v"@ && "--help"@ != "--version"@,
        "-v"@ != "-d"@ && "-v"@ != "--dir"@ && "-v"@ != "-b"@ && "-v"@ != "--bind"@,
        "--version"@ != "-d"@ && "--version"@ != "--dir"@ && "--version"@ != "-b"@
            && "--version"@ != "--bind"@,
{
    reveal_strlit("-d");
    reveal_strlit("--dir");
    reveal_strlit("-b");
    reveal_strlit("--bind");
    reveal_strlit("-v");
    reveal_strlit("--version");
    reveal_strlit("-h");
    reveal_strlit("--help");
    assert("-h"@[1] != "-d"@[1] && "-h"@[1] != "-b"@[1] && "-h"@[1] != "-v"@[1]);
    assert("-h"@.len() != "--dir"@.len() && "-h"@.len() != "--bind"@.len());
    assert("-h"@.len() != "--version"@.len());
    assert("--help"@.len() != "-d"@.len() && "--help"@.len() != "-b"@.len());
    assert("--help"@.len() != "-v"@.len() && "--help"@.len() != "--version"@.len());
    assert("--help"@[2] != "--dir"@[2] && "--help"@[2] != "--bind"@[2]);
    assert("-v"@[1] != "-d"@[1] && "-v"@[1] != "-b"@[1]);
    assert("-v"@.len() != "--dir"@.len() && "-v"@.len() != "--bind"@.len());
    assert("--version"@.len() != "-d"@.len() && "--version"@.len() != "-b"@.len());
    assert("--version"@.len() != "--dir"@.len() && "--version"@.len() != "--bind"@.len());
}

/// A help or version flag is honoured wherever it stands: when the arguments
/// before it parse without error, the command line asks for the help text
/// (or the version), whatever follows the flag.
pub proof fn lemma_info_flag_anywhere(pre: Seq<Seq<char>>, flag: Seq<char>, rest: Seq<Seq<char>>)
    requires
        flag == "-h"@ || flag == "--help"@ || flag == "-v"@ || flag == "--version"@,
        parse_args_spec(pre) is Ok,
        parse_args_spec(pre)->Ok_0 is Run,
    ensures
        parse_args_spec(pre + seq![flag] + rest) == if flag == "-h"@ || flag == "--help"@ {
            Ok::<SpecAction, Seq<char>>(SpecAction::ShowHelp)
        } else {
            Ok::<SpecAction, Seq<char>>(SpecAction::ShowVersion)
        },
{
    lemma_info_flag_after(pre, flag, rest, 0, "."@, "0.0.0.0"@, 8000, false);
}

} // verus!
