//! The arguments of the command line.
use vstd::prelude::*;
use vstd::slice::slice_subrange;

use crate::number::{
    decimal, decimal_round_trip, digit_value, lemma_decimal, read_unsigned, unsigned, unsigned_part,
};
use crate::text::{
    chars_of, copy_string, is_text, prefixed, push_all, push_text, starts_with, string_of, texts,
};

verus! {

/// The port where none is given.
pub const DEFAULT_PORT: u16 = 18080;

/// What the command line asks for.
pub struct Args {
    pub port: u16,
    pub config_path: Option<String>,
}

/// What the command line asks for.
#[verifier::ext_equal]
pub struct ArgsView {
    pub port: u16,
    pub config_path: Option<Seq<char>>,
}

impl View for Args {
    type V = ArgsView;

    open spec fn view(&self) -> ArgsView {
        ArgsView {
            port: self.port,
            config_path: match self.config_path {
                Some(p) => Some(p@),
                None => None,
            },
        }
    }
}

/// Why the program ends before it starts.
pub enum Exit {
    /// It was asked for help.
    Help,
    /// The command line is wrong, for this reason.
    Usage(String),
}

/// Why the program ends before it starts.
#[verifier::ext_equal]
pub enum ExitView {
    Help,
    Usage(Seq<char>),
}

impl View for Exit {
    type V = ExitView;

    open spec fn view(&self) -> ExitView {
        match self {
            Exit::Help => ExitView::Help,
            Exit::Usage(s) => ExitView::Usage(s@),
        }
    }
}

impl ExitView {
    /// What is printed.
    pub open spec fn words(self) -> Seq<char> {
        match self {
            ExitView::Help => "SMS Notifier\n\nUsage: sms-notifier [--port <PORT>] [--config <PATH>]\n"@,
            ExitView::Usage(s) => s
                + "\nUsage: sms-notifier [--port <PORT>] [--config <PATH>]\n"@,
        }
    }
}

impl Exit {
    /// What is printed, and the status that the program ends with. What is wrong is printed as
    /// an error.
    pub fn report(&self) -> (r: (String, i32))
        ensures
            r.0@ == self@.words(),
            r.1 == (if self@ is Help {
                0int
            } else {
                2int
            }),
    {
        match self {
            Exit::Help => (
                copy_string(
                    "SMS Notifier\n\nUsage: sms-notifier [--port <PORT>] [--config <PATH>]\n",
                ),
                0,
            ),
            Exit::Usage(s) => {
                let mut out: Vec<char> = chars_of(s.as_str());
                push_text(
                    &mut out,
                    "\nUsage: sms-notifier [--port <PORT>] [--config <PATH>]\n",
                );
                (string_of(out.as_slice()), 2)
            },
        }
    }
}

/// The result of reading the command line.
pub open spec fn args_outcome(r: Result<Args, Exit>) -> Result<ArgsView, ExitView> {
    match r {
        Ok(a) => Ok(a@),
        Err(e) => Err(e@),
    }
}

/// Reads the arguments from `i` on, after those that led to `got`.
pub open spec fn args_from(args: Seq<Seq<char>>, i: int, got: ArgsView) -> Result<
    ArgsView,
    ExitView,
>
    decreases args.len() - i,
{
    if i < 0 || i >= args.len() {
        Ok(got)
    } else {
        let a = args[i];
        if a == "-p"@ || a == "--port"@ {
            if i + 1 < args.len() {
                match unsigned(args[i + 1], 10, u16::MAX as int) {
                    Some(n) => args_from(args, i + 2, ArgsView { port: n as u16, ..got }),
                    None => Err(ExitView::Usage("Invalid port: "@ + args[i + 1])),
                }
            } else {
                Err(ExitView::Usage("Missing value for --port"@))
            }
        } else if a == "-c"@ || a == "--config"@ {
            if i + 1 < args.len() {
                args_from(args, i + 2, ArgsView { config_path: Some(args[i + 1]), ..got })
            } else {
                Err(ExitView::Usage("Missing value for --config"@))
            }
        } else if a == "-h"@ || a == "--help"@ {
            Err(ExitView::Help)
        } else if prefixed(a, "--port="@) {
            let v = a.subrange(7, a.len() as int);
            match unsigned(v, 10, u16::MAX as int) {
                Some(n) => args_from(args, i + 1, ArgsView { port: n as u16, ..got }),
                None => Err(ExitView::Usage("Invalid port: "@ + v)),
            }
        } else if prefixed(a, "--config="@) {
            args_from(
                args,
                i + 1,
                ArgsView { config_path: Some(a.subrange(9, a.len() as int)), ..got },
            )
        } else {
            Err(ExitView::Usage("Unknown argument: "@ + a))
        }
    }
}

/// What the command line asks for where it is empty.
pub open spec fn default_args() -> ArgsView {
    ArgsView { port: DEFAULT_PORT, config_path: None }
}

/// The error that `what` is wrong with `value`.
fn usage(what: &str, value: &[char]) -> (r: Exit)
    ensures
        r@ == ExitView::Usage(what@ + value@),
{
    let mut out: Vec<char> = chars_of(what);
    push_all(&mut out, value);
    Exit::Usage(string_of(out.as_slice()))
}

impl Args {
    /// Reads the arguments, without the name of the program. Of an option that is given more
    /// than once the last one counts.
    pub fn parse(args: &[String]) -> (r: Result<Args, Exit>)
        ensures
            args_outcome(r) == args_from(texts(args@), 0, default_args()),
    {
        let ghost all = texts(args@);
        let mut got: Args = Args { port: DEFAULT_PORT, config_path: None };
        let mut i: usize = 0;
        proof {
            reveal_strlit("--port=");
            reveal_strlit("--config=");
        }
        while i < args.len()
            invariant
                i <= args@.len(),
                all == texts(args@),
                "--port="@.len() == 7,
                "--config="@.len() == 9,
                args_from(all, 0, default_args()) == args_from(all, i as int, got@),
            decreases args.len() - i,
        {
            assert(all[i as int] == args@[i as int]@);
            let arg: Vec<char> = chars_of(args[i].as_str());
            let a: &[char] = arg.as_slice();
            if is_text(a, "-p") || is_text(a, "--port") {
                if args.len() - i < 2 {
                    return Err(Exit::Usage(copy_string("Missing value for --port")));
                }
                assert(all[i + 1] == args@[i + 1]@);
                let value: Vec<char> = chars_of(args[i + 1].as_str());
                match read_unsigned(value.as_slice(), 10, 65535) {
                    Some(n) => {
                        got.port = n as u16;
                    },
                    None => {
                        return Err(usage("Invalid port: ", value.as_slice()));
                    },
                }
                i += 2;
            } else if is_text(a, "-c") || is_text(a, "--config") {
                if args.len() - i < 2 {
                    return Err(Exit::Usage(copy_string("Missing value for --config")));
                }
                assert(all[i + 1] == args@[i + 1]@);
                got.config_path = Some(copy_string(args[i + 1].as_str()));
                i += 2;
            } else if is_text(a, "-h") || is_text(a, "--help") {
                return Err(Exit::Help);
            } else if starts_with(a, "--port=") {
                let value: &[char] = slice_subrange(a, 7, a.len());
                match read_unsigned(value, 10, 65535) {
                    Some(n) => {
                        got.port = n as u16;
                    },
                    None => {
                        return Err(usage("Invalid port: ", value));
                    },
                }
                i += 1;
            } else if starts_with(a, "--config=") {
                got.config_path = Some(string_of(slice_subrange(a, 9, a.len())));
                i += 1;
            } else {
                return Err(usage("Unknown argument: ", a));
            }
        }
        Ok(got)
    }
}

// ───────────────────────── laws ─────────────────────────

/// An option and its value may stand in one argument or in two, after whatever was given before.
pub proof fn equals_sign_or_space(value: Seq<char>, config: bool, got: ArgsView)
    ensures
        config ==> args_from(seq!["--config="@ + value], 0, got) == args_from(
            seq!["--config"@, value],
            0,
            got,
        ),
        !config ==> args_from(seq!["--port="@ + value], 0, got) == args_from(
            seq!["--port"@, value],
            0,
            got,
        ),
{
    reveal_strlit("-p");
    reveal_strlit("-c");
    reveal_strlit("-h");
    reveal_strlit("--port");
    reveal_strlit("--config");
    reveal_strlit("--help");
    reveal_strlit("--port=");
    reveal_strlit("--config=");
    let name = if config {
        "--config="@
    } else {
        "--port="@
    };
    let one = name + value;
    let n = name.len() as int;
    assert(one.subrange(0, n) =~= name);
    assert(one.subrange(n, one.len() as int) =~= value);
    assert(one[n - 1] == '=');
    assert(one.len() >= 7);
    assert("-p"@.len() == 2 && "-c"@.len() == 2 && "-h"@.len() == 2);
    assert("--port"@.len() == 6 && "--help"@.len() == 6 && "--config"@.len() == 8);
    assert("--port"@[5] == 't' && "--config"@[2] == 'c' && "--port"@[2] == 'p');
    assert(one[2] == name[2]);
    if config {
        assert(one.subrange(0, 7)[2] == 'c');
        assert("--port="@[2] == 'p');
        assert(one.len() >= 9);
        assert("--port"@ != "--config"@);
        assert("-p"@ != "--config"@);
    } else {
        assert(one != "--config"@) by {
            assert(one[2] == 'p');
        }
    }
    let got1 = seq![one];
    let got2 = seq![
        if config {
            "--config"@
        } else {
            "--port"@
        },
        value,
    ];
    assert(got1[0] == one);
    assert(got2[1] == value);
    reveal_with_fuel(args_from, 3);
}

/// The options are told apart by their names.
proof fn lemma_names()
    ensures
        ({
            let p = "-p"@;
            let c = "-c"@;
            let h = "-h"@;
            let port = "--port"@;
            let config = "--config"@;
            let help = "--help"@;
            &&& p.len() == 2 && c.len() == 2 && h.len() == 2
            &&& p[1] == 'p' && c[1] == 'c' && h[1] == 'h'
            &&& port.len() == 6 && config.len() == 8 && help.len() == 6
            &&& port[2] == 'p' && config[2] == 'c' && help[2] == 'h'
            &&& "--port="@ == port.push('=')
            &&& "--config="@ == config.push('=')
        }),
{
    reveal_strlit("-p");
    reveal_strlit("-c");
    reveal_strlit("-h");
    reveal_strlit("--port");
    reveal_strlit("--config");
    reveal_strlit("--help");
    reveal_strlit("--port=");
    reveal_strlit("--config=");
    assert("--port="@ =~= "--port"@.push('='));
    assert("--config="@ =~= "--config"@.push('='));
}

/// The port that is asked for is the one that is used, under either name of the option, and
/// nothing else changes. A number that no port can have is refused, and so is what is no number.
pub proof fn a_port_is_taken(short: bool, n: nat, word: Seq<char>, got: ArgsView)
    ensures
        ({
            let name = if short {
                "-p"@
            } else {
                "--port"@
            };
            &&& n <= 65535 ==> args_from(seq![name, decimal(n)], 0, got) == Ok::<
                ArgsView,
                ExitView,
            >(ArgsView { port: n as u16, config_path: got.config_path })
            &&& n > 65535 ==> args_from(seq![name, decimal(n)], 0, got) == Err::<
                ArgsView,
                ExitView,
            >(ExitView::Usage("Invalid port: "@ + decimal(n)))
            &&& word.len() == 0 || !('0' <= word.last() <= '9') ==> args_from(
                seq![name, word],
                0,
                got,
            ) == Err::<ArgsView, ExitView>(ExitView::Usage("Invalid port: "@ + word))
            &&& args_from(seq![name], 0, got) is Err
        }),
{
    lemma_names();
    lemma_decimal(n);
    if n <= 65535 {
        decimal_round_trip(n, 65535);
    }
    let name = if short {
        "-p"@
    } else {
        "--port"@
    };
    if word.len() == 0 || !('0' <= word.last() <= '9') {
        let d = unsigned_part(word);
        if d.len() > 0 {
            assert(d[d.len() - 1] == word.last());
            assert(digit_value(d[d.len() - 1], 10) is None);
        }
    }
    let a = seq![name, decimal(n)];
    let b = seq![name, word];
    assert(a[0] == name && a[1] == decimal(n));
    assert(b[0] == name && b[1] == word);
    assert(seq![name][0] == name);
    reveal_with_fuel(args_from, 2);
}

/// The path that is given is the one that is used, under either name of the option, whatever it
/// holds, and nothing else changes.
pub proof fn a_path_is_taken(short: bool, path: Seq<char>, got: ArgsView)
    ensures
        ({
            let name = if short {
                "-c"@
            } else {
                "--config"@
            };
            &&& args_from(seq![name, path], 0, got) == Ok::<ArgsView, ExitView>(
                ArgsView { port: got.port, config_path: Some(path) },
            )
            &&& args_from(seq![name], 0, got) is Err
        }),
{
    lemma_names();
    let name = if short {
        "-c"@
    } else {
        "--config"@
    };
    let a = seq![name, path];
    assert(a[0] == name && a[1] == path);
    assert(seq![name][0] == name);
    reveal_with_fuel(args_from, 2);
}

proof fn lemma_args_behind(a: Seq<Seq<char>>, b: Seq<Seq<char>>, i: int, got: ArgsView)
    requires
        0 <= i <= b.len(),
    ensures
        args_from(a + b, a.len() + i, got) == args_from(b, i, got),
    decreases b.len() - i,
{
    if i < b.len() {
        assert((a + b)[a.len() + i] == b[i]);
        let arg = b[i];
        if i + 1 < b.len() {
            assert((a + b)[a.len() + i + 1] == b[i + 1]);
            lemma_args_behind(
                a,
                b,
                i + 2,
                ArgsView { port: (unsigned(b[i + 1], 10, u16::MAX as int)->0) as u16, ..got },
            );
            lemma_args_behind(a, b, i + 2, ArgsView { config_path: Some(b[i + 1]), ..got });
        }
        let v = arg.subrange(7, arg.len() as int);
        lemma_args_behind(
            a,
            b,
            i + 1,
            ArgsView { port: (unsigned(v, 10, u16::MAX as int)->0) as u16, ..got },
        );
        lemma_args_behind(
            a,
            b,
            i + 1,
            ArgsView { config_path: Some(arg.subrange(9, arg.len() as int)), ..got },
        );
    }
}

proof fn lemma_args_front(a: Seq<Seq<char>>, b: Seq<Seq<char>>, i: int, got: ArgsView)
    requires
        0 <= i <= a.len(),
        args_from(a, i, got) is Ok,
    ensures
        args_from(a + b, i, got) == args_from(b, 0, args_from(a, i, got)->Ok_0),
    decreases a.len() - i,
{
    if i == a.len() {
        lemma_args_behind(a, b, 0, got);
    } else {
        assert((a + b)[i] == a[i]);
        let arg = a[i];
        let v = arg.subrange(7, arg.len() as int);
        if i + 1 < a.len() {
            assert((a + b)[i + 1] == a[i + 1]);
        }
        if arg == "-p"@ || arg == "--port"@ {
            lemma_args_front(
                a,
                b,
                i + 2,
                ArgsView { port: (unsigned(a[i + 1], 10, u16::MAX as int)->0) as u16, ..got },
            );
        } else if arg == "-c"@ || arg == "--config"@ {
            lemma_args_front(a, b, i + 2, ArgsView { config_path: Some(a[i + 1]), ..got });
        } else if prefixed(arg, "--port="@) {
            lemma_args_front(
                a,
                b,
                i + 1,
                ArgsView { port: (unsigned(v, 10, u16::MAX as int)->0) as u16, ..got },
            );
        } else {
            lemma_args_front(
                a,
                b,
                i + 1,
                ArgsView { config_path: Some(arg.subrange(9, arg.len() as int)), ..got },
            );
        }
    }
}

/// Options are taken one after the other: what stands in front decides what the others start
/// from, and nothing else.
pub proof fn options_are_taken_in_turn(a: Seq<Seq<char>>, b: Seq<Seq<char>>, got: ArgsView)
    requires
        args_from(a, 0, got) is Ok,
    ensures
        args_from(a + b, 0, got) == args_from(b, 0, args_from(a, 0, got)->Ok_0),
        args_from(Seq::<Seq<char>>::empty(), 0, got) == Ok::<ArgsView, ExitView>(got),
{
    lemma_args_front(a, b, 0, got);
}

/// Help is given wherever it is asked for, and an argument that is none of the options is
/// refused.
pub proof fn other_arguments_are_refused(arg: Seq<char>, rest: Seq<Seq<char>>, got: ArgsView)
    ensures
        arg == "-h"@ || arg == "--help"@ ==> args_from(seq![arg] + rest, 0, got) == Err::<
            ArgsView,
            ExitView,
        >(ExitView::Help),
        arg.len() == 0 || arg[0] != '-' ==> args_from(seq![arg] + rest, 0, got) == Err::<
            ArgsView,
            ExitView,
        >(ExitView::Usage("Unknown argument: "@ + arg)),
{
    lemma_names();
    reveal_strlit("-p");
    reveal_strlit("-c");
    reveal_strlit("-h");
    reveal_strlit("--port");
    reveal_strlit("--config");
    reveal_strlit("--help");
    let all = seq![arg] + rest;
    assert(all[0] == arg);
    if arg.len() == 0 || arg[0] != '-' {
        assert(!prefixed(arg, "--port="@)) by {
            if prefixed(arg, "--port="@) {
                assert(arg.subrange(0, 7)[0] == '-');
            }
        }
        assert(!prefixed(arg, "--config="@)) by {
            if prefixed(arg, "--config="@) {
                assert(arg.subrange(0, 9)[0] == '-');
            }
        }
    }
}

} // verus!
