//! The command line: `--port N`, `--no-open`, and the mock sources
//! (`--mock N`, `--mock-dir PATH`, `--mock-delay SECS`), and the state the
//! server starts with.

use vstd::prelude::*;
use crate::decimal::parse_unsigned;
use crate::state::{AppState, Connector, MockSpec};
use crate::text::{chars_of, eq_chars};

verus! {

/// The parsed flags.
#[derive(Debug)]
pub struct Args {
    pub port: u16,
    pub no_open: bool,
    /// `--mock N`: how many mock photos. With `--mock-dir`, the images come
    /// from that directory (cycling when N exceeds the file count); without
    /// it they are synthetic. `--mock-dir` alone uses each image once.
    pub mock: Option<usize>,
    pub mock_dir: Option<String>,
    pub mock_delay: u64,
}

pub struct ArgsView {
    pub port: u16,
    pub no_open: bool,
    pub mock: Option<usize>,
    pub mock_dir: Option<Seq<char>>,
    pub mock_delay: u64,
}

impl View for Args {
    type V = ArgsView;

    open spec fn view(&self) -> ArgsView {
        ArgsView {
            port: self.port,
            no_open: self.no_open,
            mock: self.mock,
            mock_dir: match self.mock_dir {
                Some(d) => Some(d@),
                None => None,
            },
            mock_delay: self.mock_delay,
        }
    }
}

/// Port 8080, the browser opened, no mock.
pub open spec fn default_args() -> ArgsView {
    ArgsView { port: 8080, no_open: false, mock: None, mock_dir: None, mock_delay: 0 }
}

/// The flags `argv[i..]` applied to `a`, with the arguments ignored so far:
/// a flag's value is the argument after it (a missing or unreadable value
/// keeps the port, clears the mock count, and makes the delay 0).
pub open spec fn args_from(argv: Seq<Seq<char>>, i: int, a: ArgsView, ignored: Seq<Seq<char>>) -> (
    ArgsView,
    Seq<Seq<char>>,
)
    decreases argv.len() - i,
{
    if i < 0 || i >= argv.len() {
        (a, ignored)
    } else {
        let f = argv[i];
        let v = if i + 1 < argv.len() {
            Some(argv[i + 1])
        } else {
            None
        };
        let after = if i + 1 < argv.len() {
            i + 2
        } else {
            argv.len() as int
        };
        if f == "--port"@ {
            let port = match v {
                Some(s) => match parse_unsigned(s, u16::MAX as nat) {
                    Some(p) => p as u16,
                    None => a.port,
                },
                None => a.port,
            };
            args_from(argv, after, ArgsView { port, ..a }, ignored)
        } else if f == "--no-open"@ {
            args_from(argv, i + 1, ArgsView { no_open: true, ..a }, ignored)
        } else if f == "--mock"@ {
            let mock = match v {
                Some(s) => match parse_unsigned(s, usize::MAX as nat) {
                    Some(n) => Some(n as usize),
                    None => None,
                },
                None => None,
            };
            args_from(argv, after, ArgsView { mock, ..a }, ignored)
        } else if f == "--mock-dir"@ {
            args_from(argv, after, ArgsView { mock_dir: v, ..a }, ignored)
        } else if f == "--mock-delay"@ {
            let d = match v {
                Some(s) => match parse_unsigned(s, u64::MAX as nat) {
                    Some(n) => n as u64,
                    None => 0,
                },
                None => 0,
            };
            args_from(argv, after, ArgsView { mock_delay: d, ..a }, ignored)
        } else {
            args_from(argv, i + 1, a, ignored.push(f))
        }
    }
}

pub open spec fn strings_view(v: Seq<String>) -> Seq<Seq<char>> {
    v.map_values(|s: String| s@)
}

/// Parses the command line `argv` (the program's name first): the flags,
/// and the arguments that were not understood (to be reported and ignored).
pub fn parse_args(argv: &Vec<String>) -> (r: (Args, Vec<String>))
    ensures
        (r.0@, strings_view(r.1@)) == args_from(strings_view(argv@), 1, default_args(), Seq::empty()),
{
    let ghost av = strings_view(argv@);
    let mut a = Args { port: 8080, no_open: false, mock: None, mock_dir: None, mock_delay: 0 };
    let mut ignored: Vec<String> = Vec::new();
    let mut i: usize = 1;
    assert(strings_view(ignored@) =~= Seq::<Seq<char>>::empty());
    while i < argv.len()
        invariant
            1 <= i,
            av == strings_view(argv@),
            args_from(av, i as int, a@, strings_view(ignored@)) == args_from(av, 1, default_args(), Seq::empty()),
        decreases argv.len() - i,
    {
        let f = chars_of(argv[i].as_str());
        let next: Option<&String> = if i + 1 < argv.len() {
            Some(&argv[i + 1])
        } else {
            None
        };
        if eq_chars(&f, &chars_of("--port")) {
            a.port = match next {
                Some(s) => match crate::decimal::parse_u16(&chars_of(s.as_str())) {
                    Some(p) => p,
                    None => a.port,
                },
                None => a.port,
            };
            i = if i + 1 < argv.len() { i + 2 } else { argv.len() };
        } else if eq_chars(&f, &chars_of("--no-open")) {
            a.no_open = true;
            i = i + 1;
        } else if eq_chars(&f, &chars_of("--mock")) {
            a.mock = match next {
                Some(s) => crate::decimal::parse_usize(&chars_of(s.as_str())),
                None => None,
            };
            i = if i + 1 < argv.len() { i + 2 } else { argv.len() };
        } else if eq_chars(&f, &chars_of("--mock-dir")) {
            a.mock_dir = match next {
                Some(s) => Some(s.clone()),
                None => None,
            };
            i = if i + 1 < argv.len() { i + 2 } else { argv.len() };
        } else if eq_chars(&f, &chars_of("--mock-delay")) {
            a.mock_delay = match next {
                Some(s) => match crate::decimal::parse_u64(&chars_of(s.as_str())) {
                    Some(d) => d,
                    None => 0,
                },
                None => 0,
            };
            i = if i + 1 < argv.len() { i + 2 } else { argv.len() };
        } else {
            let ghost prev = strings_view(ignored@);
            ignored.push(argv[i].clone());
            assert(strings_view(ignored@) =~= prev.push(f@));
            i = i + 1;
        }
    }
    (a, ignored)
}

/// The state the server starts with: disconnected, with a mock connector
/// when a mock source was asked for (a directory, else synthetic photos).
pub fn build_state(args: &Args) -> (r: AppState)
    ensures
        r.wf(),
        r@.source is None,
        r@.cache == Map::<Seq<char>, crate::model::PhotoView>::empty(),
        r@.error is None,
        r@.epoch == 0,
        r.connector_spec() == match (args.mock_dir, args.mock) {
            (Some(dir), count) => Connector::Mock { spec: MockSpec::Dir(dir, count), delay_secs: args.mock_delay },
            (None, Some(n)) => Connector::Mock { spec: MockSpec::Synthetic(n), delay_secs: args.mock_delay },
            (None, None) => Connector::Real,
        },
{
    match &args.mock_dir {
        Some(dir) => AppState::mock_dir(dir.clone(), args.mock, args.mock_delay),
        None => match args.mock {
            Some(n) => AppState::mock_synthetic(n, args.mock_delay),
            None => AppState::new(),
        },
    }
}

} // verus!

verus! {

/// Whether a flag reads the argument after it as its value.
pub open spec fn takes_value(f: Seq<char>) -> bool {
    f == "--port"@ || f == "--mock"@ || f == "--mock-dir"@ || f == "--mock-delay"@
}

/// The position of the `n`-th argument read as a flag: the first after the
/// program's name, then past each flag and, for one that takes a value,
/// past its value too.
pub open spec fn flag_position(argv: Seq<Seq<char>>, n: nat) -> int
    decreases n,
{
    if n == 0 {
        1
    } else {
        let p = flag_position(argv, (n - 1) as nat);
        if 0 <= p < argv.len() && takes_value(argv[p]) {
            p + 2
        } else {
            p + 1
        }
    }
}

proof fn lemma_flag_position_grows(argv: Seq<Seq<char>>, m: nat, n: nat)
    requires
        m <= n,
    ensures
        flag_position(argv, m) + (n - m) <= flag_position(argv, n),
    decreases n,
{
    if m < n {
        lemma_flag_position_grows(argv, m, (n - 1) as nat);
    }
}

/// The flags after `argv[i]` and where the scan goes on: what one step of
/// `args_from` does to the parsed flags.
pub open spec fn flag_step(argv: Seq<Seq<char>>, i: int, a: ArgsView) -> ArgsView {
    let f = argv[i];
    let v = if i + 1 < argv.len() {
        Some(argv[i + 1])
    } else {
        None
    };
    if f == "--port"@ {
        ArgsView {
            port: match v {
                Some(s) => match parse_unsigned(s, u16::MAX as nat) {
                    Some(p) => p as u16,
                    None => a.port,
                },
                None => a.port,
            },
            ..a
        }
    } else if f == "--no-open"@ {
        ArgsView { no_open: true, ..a }
    } else if f == "--mock"@ {
        ArgsView {
            mock: match v {
                Some(s) => match parse_unsigned(s, usize::MAX as nat) {
                    Some(n) => Some(n as usize),
                    None => None,
                },
                None => None,
            },
            ..a
        }
    } else if f == "--mock-dir"@ {
        ArgsView { mock_dir: v, ..a }
    } else if f == "--mock-delay"@ {
        ArgsView {
            mock_delay: match v {
                Some(s) => match parse_unsigned(s, u64::MAX as nat) {
                    Some(n) => n as u64,
                    None => 0,
                },
                None => 0,
            },
            ..a
        }
    } else {
        a
    }
}

proof fn lemma_flag_names_differ()
    ensures
        "--port"@ != "--no-open"@,
        "--port"@ != "--mock"@,
        "--port"@ != "--mock-dir"@,
        "--port"@ != "--mock-delay"@,
        "--no-open"@ != "--mock"@,
        "--no-open"@ != "--mock-dir"@,
        "--no-open"@ != "--mock-delay"@,
        "--mock"@ != "--mock-dir"@,
        "--mock"@ != "--mock-delay"@,
        "--mock-dir"@ != "--mock-delay"@,
{
    reveal_strlit("--port");
    reveal_strlit("--no-open");
    reveal_strlit("--mock");
    reveal_strlit("--mock-dir");
    reveal_strlit("--mock-delay");
    assert("--port"@.len() == 6 && "--port"@[2] == 'p');
    assert("--no-open"@.len() == 9);
    assert("--mock"@.len() == 6 && "--mock"@[2] == 'm');
    assert("--mock-dir"@.len() == 10);
    assert("--mock-delay"@.len() == 12);
}

proof fn lemma_args_from_step(argv: Seq<Seq<char>>, i: int, a: ArgsView, ignored: Seq<Seq<char>>)
    requires
        0 <= i < argv.len(),
    ensures
        ({
            let f = argv[i];
            let next = if takes_value(f) {
                if i + 1 < argv.len() {
                    i + 2
                } else {
                    argv.len() as int
                }
            } else {
                i + 1
            };
            let ig2 = if takes_value(f) || f == "--no-open"@ {
                ignored
            } else {
                ignored.push(f)
            };
            args_from(argv, i, a, ignored) == args_from(argv, next, flag_step(argv, i, a), ig2)
        }),
{
    lemma_flag_names_differ();
}

proof fn lemma_no_open_kept(argv: Seq<Seq<char>>, i: int, a: ArgsView, ignored: Seq<Seq<char>>)
    requires
        a.no_open,
    ensures
        args_from(argv, i, a, ignored).0.no_open,
    decreases argv.len() - i,
{
    if 0 <= i < argv.len() {
        lemma_args_from_step(argv, i, a, ignored);
        let f = argv[i];
        let next = if takes_value(f) {
            if i + 1 < argv.len() {
                i + 2
            } else {
                argv.len() as int
            }
        } else {
            i + 1
        };
        let ig2 = if takes_value(f) || f == "--no-open"@ {
            ignored
        } else {
            ignored.push(f)
        };
        lemma_no_open_kept(argv, next, flag_step(argv, i, a), ig2);
    }
}

proof fn lemma_no_open_reached(
    argv: Seq<Seq<char>>,
    n: nat,
    k: nat,
    a: ArgsView,
    ignored: Seq<Seq<char>>,
)
    requires
        n <= k,
        flag_position(argv, k) < argv.len(),
        argv[flag_position(argv, k)] == "--no-open"@,
    ensures
        args_from(argv, flag_position(argv, n), a, ignored).0.no_open,
    decreases k - n,
{
    lemma_flag_names_differ();
    let i = flag_position(argv, n);
    lemma_flag_position_grows(argv, 0, n);
    lemma_flag_position_grows(argv, n, k);
    lemma_args_from_step(argv, i, a, ignored);
    let f = argv[i];
    let ig2 = if takes_value(f) || f == "--no-open"@ {
        ignored
    } else {
        ignored.push(f)
    };
    if n == k {
        lemma_no_open_kept(argv, i + 1, flag_step(argv, i, a), ignored);
    } else {
        lemma_flag_position_grows(argv, n + 1, k);
        assert(flag_position(argv, n + 1) == if takes_value(f) { i + 2 } else { i + 1 }) by {
            assert(((n + 1) - 1) as nat == n);
        }
        lemma_no_open_reached(argv, n + 1, k, flag_step(argv, i, a), ig2);
    }
}

/// `--no-open` keeps the browser closed: when an argument read as a flag
/// (not as the value of the flag before it) is `--no-open`, the parsed
/// `no_open` is set, whatever comes before or after it.
pub proof fn law_no_open_is_honoured(argv: Seq<Seq<char>>, k: nat)
    requires
        flag_position(argv, k) < argv.len(),
        argv[flag_position(argv, k)] == "--no-open"@,
    ensures
        args_from(argv, 1, default_args(), Seq::empty()).0.no_open,
{
    lemma_no_open_reached(argv, 0, k, default_args(), Seq::empty());
}

} // verus!
