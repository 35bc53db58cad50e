//! The command line: what is asked for, and when the program is done.

use vstd::prelude::*;

use crate::numbers::{parse_usize, read_usize};
use crate::text::{chars_of, copy_str, same_str, texts};
use crate::time::Duration;
use crate::units::{duration, parse_duration};

verus! {

/// The position of the first argument that is `k`, or the number of arguments.
pub open spec fn position(args: Seq<Seq<char>>, k: Seq<char>) -> nat
    decreases args.len(),
{
    if args.len() == 0 || args[0] == k {
        0
    } else {
        1 + position(args.skip(1), k)
    }
}

/// The argument after the first that is `k`.
pub open spec fn flag_value(args: Seq<Seq<char>>, k: Seq<char>) -> Option<Seq<char>> {
    let i = position(args, k) as int + 1;
    if i < args.len() {
        Some(args[i])
    } else {
        None
    }
}

proof fn lemma_position(args: Seq<Seq<char>>, k: Seq<char>, i: int)
    requires
        0 <= i <= args.len(),
        forall|j: int| 0 <= j < i ==> args[j] != k,
        i == args.len() || args[i] == k,
    ensures
        position(args, k) == i,
    decreases i,
{
    if i > 0 {
        let rest = args.skip(1);
        assert forall|j: int| 0 <= j < i - 1 implies rest[j] != k by {
            assert(rest[j] == args[j + 1]);
        }
        lemma_position(rest, k, i - 1);
    }
}

fn find_arg(args: &Vec<String>, k: &str) -> (r: usize)
    ensures
        r == position(texts(args@), k@),
        r <= args@.len(),
        r < args@.len() <==> texts(args@).contains(k@),
{
    let ghost all = texts(args@);
    let mut i: usize = 0;
    while i < args.len()
        invariant
            i <= args.len(),
            all == texts(args@),
            forall|j: int| 0 <= j < i ==> all[j] != k@,
        decreases args.len() - i,
    {
        assert(all[i as int] == args@[i as int]@);
        if same_str(args[i].as_str(), k) {
            proof {
                lemma_position(all, k@, i as int);
            }
            return i;
        }
        i += 1;
    }
    proof {
        lemma_position(all, k@, i as int);
    }
    i
}

/// The argument after the first that is `k`.
pub fn flag(args: &Vec<String>, k: &str) -> (r: Option<String>)
    ensures
        match r {
            Some(v) => flag_value(texts(args@), k@) == Some(v@),
            None => flag_value(texts(args@), k@) is None,
        },
{
    let i = find_arg(args, k);
    if i < args.len() && i + 1 < args.len() {
        assert(texts(args@)[i + 1] == args@[i + 1]@);
        Some(copy_str(args[i + 1].as_str()))
    } else {
        None
    }
}

/// Whether an argument is `k`.
pub fn has(args: &Vec<String>, k: &str) -> (r: bool)
    ensures
        r == texts(args@).contains(k@),
{
    find_arg(args, k) < args.len()
}

/// What the command line asks for.
pub struct Options {
    pub help: bool,
    /// The sampling interval.
    pub interval: Duration,
    /// How many processes to display.
    pub top: usize,
    /// Where the files are read.
    pub root: String,
    pub json: bool,
    pub once: bool,
    /// For how long to run; for ever where it is absent.
    pub run_for: Option<Duration>,
    /// The rule file.
    pub rules: Option<String>,
    /// Whether to attribute sockets to processes.
    pub sockets: bool,
}

/// The contents of an `Options`.
pub struct OptionsView {
    pub help: bool,
    pub interval: Duration,
    pub top: usize,
    pub root: Seq<char>,
    pub json: bool,
    pub once: bool,
    pub run_for: Option<Duration>,
    pub rules: Option<Seq<char>>,
    pub sockets: bool,
}

impl View for Options {
    type V = OptionsView;

    open spec fn view(&self) -> OptionsView {
        OptionsView {
            help: self.help,
            interval: self.interval,
            top: self.top,
            root: self.root@,
            json: self.json,
            once: self.once,
            run_for: self.run_for,
            rules: match self.rules {
                Some(path) => Some(path@),
                None => None,
            },
            sockets: self.sockets,
        }
    }
}

/// The span of time after `k`, where there is one that can be read.
pub open spec fn duration_flag(args: Seq<Seq<char>>, k: Seq<char>) -> Option<Duration> {
    match flag_value(args, k) {
        Some(v) => duration(v),
        None => None,
    }
}

/// What the arguments ask for. What is absent or cannot be read has its
/// default.
pub open spec fn options(args: Seq<Seq<char>>) -> OptionsView {
    OptionsView {
        help: args.contains("--help"@) || args.contains("-h"@),
        interval: match duration_flag(args, "--interval"@) {
            Some(d) => d,
            None => Duration { nanos: 1_000_000_000 },
        },
        top: match flag_value(args, "--top"@) {
            Some(v) => match parse_usize(v) {
                Some(n) => n,
                None => 15,
            },
            None => 15,
        },
        root: match flag_value(args, "--proc-root"@) {
            Some(v) => v,
            None => "/proc"@,
        },
        json: args.contains("--json"@),
        once: args.contains("--once"@),
        run_for: duration_flag(args, "--duration"@),
        rules: flag_value(args, "--rules"@),
        sockets: args.contains("--sockets"@),
    }
}

fn read_duration_flag(args: &Vec<String>, k: &str) -> (r: Option<Duration>)
    ensures
        r == duration_flag(texts(args@), k@),
{
    match flag(args, k) {
        Some(v) => parse_duration(v.as_str()),
        None => None,
    }
}

/// Reads the arguments.
pub fn read_options(args: &Vec<String>) -> (r: Options)
    ensures
        r@ == options(texts(args@)),
{
    let interval = match read_duration_flag(args, "--interval") {
        Some(d) => d,
        None => Duration::from_secs(1),
    };
    let top = match flag(args, "--top") {
        Some(v) => match read_usize(chars_of(v.as_str()).as_slice()) {
            Some(n) => n,
            None => 15,
        },
        None => 15,
    };
    let root = match flag(args, "--proc-root") {
        Some(v) => v,
        None => copy_str("/proc"),
    };
    let help = has(args, "--help") || has(args, "-h");
    Options {
        help,
        interval,
        top,
        root,
        json: has(args, "--json"),
        once: has(args, "--once"),
        run_for: read_duration_flag(args, "--duration"),
        rules: flag(args, "--rules"),
        sockets: has(args, "--sockets"),
    }
}

/// Whether to go on with a rule file: one with errors and without a rule is of
/// no use, and one with neither is fine.
pub fn rules_usable(rules: usize, errors: usize) -> (r: bool)
    ensures
        r <==> rules > 0 || errors == 0,
{
    !(errors > 0 && rules == 0)
}

/// Whether the program is done after a view that was shown `elapsed` after the
/// start.
pub fn finished(once: bool, run_for: Option<Duration>, elapsed: Duration) -> (r: bool)
    ensures
        r <==> once || (run_for is Some && elapsed.nanos >= run_for->0.nanos),
{
    if once {
        return true;
    }
    match run_for {
        Some(d) => elapsed.nanos >= d.nanos,
        None => false,
    }
}

// ------------------------------------------------------------------ laws --

/// The value of a flag is the argument behind it, the first time that the flag
/// stands there, whatever else is given. A flag that is last, or that is not
/// there, has none.
pub proof fn law_a_value_follows_its_flag(a: Seq<Seq<char>>, k: Seq<char>, v: Seq<char>, b: Seq<Seq<char>>)
    requires
        !a.contains(k),
    ensures
        flag_value(a + seq![k, v] + b, k) == Some(v),
        flag_value(a.push(k), k) is None,
        flag_value(a, k) is None,
{
    let n = a.len();
    assert forall|i: int| 0 <= i < n implies #[trigger] a[i] != k by {
        assert(a.contains(a[i]));
    }
    let all = a + seq![k, v] + b;
    assert forall|i: int| 0 <= i < n implies #[trigger] all[i] != k by {
        assert(all[i] == a[i]);
    }
    assert(all[n as int] == k && all[n as int + 1] == v);
    lemma_position(all, k, n as int);
    let last = a.push(k);
    assert forall|i: int| 0 <= i < n implies #[trigger] last[i] != k by {
        assert(last[i] == a[i]);
    }
    lemma_position(last, k, n as int);
    lemma_position(a, k, n as int);
}

/// Each option with a value takes that of its own flag, and no other; one that
/// cannot be read is as if it were not given.
pub proof fn law_each_option_has_its_flag(a: Seq<Seq<char>>, k: Seq<char>, v: Seq<char>, b: Seq<Seq<char>>)
    requires
        !a.contains(k),
    ensures
        ({
            let o = options(a + seq![k, v] + b);
            &&& k == "--interval"@ && duration(v) is Some ==> o.interval == duration(v)->0
            &&& k == "--interval"@ && duration(v) is None ==> o.interval.nanos == 1_000_000_000
            &&& k == "--duration"@ ==> o.run_for == duration(v)
            &&& k == "--top"@ && parse_usize(v) is Some ==> o.top == parse_usize(v)->0
            &&& k == "--top"@ && parse_usize(v) is None ==> o.top == 15
            &&& k == "--proc-root"@ ==> o.root == v
            &&& k == "--rules"@ ==> o.rules == Some(v)
        }),
{
    law_a_value_follows_its_flag(a, k, v, b);
}

/// Without its flag an option is what it is by default: a sample a second, fifteen
/// processes, the files under `/proc`, no end and no rules. A switch is on exactly
/// where it is given.
pub proof fn law_options_have_defaults(args: Seq<Seq<char>>)
    ensures
        !args.contains("--interval"@) ==> options(args).interval.nanos == 1_000_000_000,
        !args.contains("--top"@) ==> options(args).top == 15,
        !args.contains("--proc-root"@) ==> options(args).root == "/proc"@,
        !args.contains("--duration"@) ==> options(args).run_for is None,
        !args.contains("--rules"@) ==> options(args).rules is None,
        options(args).json <==> args.contains("--json"@),
        options(args).once <==> args.contains("--once"@),
        options(args).sockets <==> args.contains("--sockets"@),
        options(args).help <==> args.contains("--help"@) || args.contains("-h"@),
{
    if !args.contains("--interval"@) {
        law_a_value_follows_its_flag(args, "--interval"@, seq![], seq![]);
    }
    if !args.contains("--top"@) {
        law_a_value_follows_its_flag(args, "--top"@, seq![], seq![]);
    }
    if !args.contains("--proc-root"@) {
        law_a_value_follows_its_flag(args, "--proc-root"@, seq![], seq![]);
    }
    if !args.contains("--duration"@) {
        law_a_value_follows_its_flag(args, "--duration"@, seq![], seq![]);
    }
    if !args.contains("--rules"@) {
        law_a_value_follows_its_flag(args, "--rules"@, seq![], seq![]);
    }
}

} // verus!
