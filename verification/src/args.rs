//! The command line: each argument read into options, the options applied
//! in order to the settings of a run.

use vstd::prelude::*;

use crate::text::chars_of;

verus! {

/// What one option on the command line asks for.
#[derive(Debug)]
pub enum CMDarg {
    Import,
    Export,
    Git,
    Help,
    Verbose,
    Tar,
    /// An argument that could not be read; it is given whole.
    Error(String),
}

/// What the run is to do.
#[derive(Debug, PartialEq, Eq, Structural)]
pub enum Mode {
    Unset,
    Import,
    Export,
}

/// How much the run reports, from errors only to everything.
#[derive(Debug, PartialEq, Eq, Structural)]
pub enum Verbosity {
    Error,
    Warn,
    Info,
    Debug,
    Trace,
}

/// The settings of a run.
#[derive(Debug)]
pub struct Arguments {
    pub name: String,
    pub mode: Mode,
    pub directory: String,
    pub git: bool,
    pub help: bool,
    pub verbosity: Verbosity,
    pub tar: bool,
}

/// Why the command line could not be read.
#[derive(Debug)]
pub enum ArgError {
    /// An argument that is no option; it is given whole.
    FailedToParse(String),
}

/// An option, with the text of an unreadable argument as a sequence.
pub enum CmdArgView {
    Import,
    Export,
    Git,
    Help,
    Verbose,
    Tar,
    Error(Seq<char>),
}

/// The settings of a run, with texts as sequences.
pub struct ArgumentsView {
    pub name: Seq<char>,
    pub mode: Mode,
    pub directory: Seq<char>,
    pub git: bool,
    pub help: bool,
    pub verbosity: Verbosity,
    pub tar: bool,
}

impl View for CMDarg {
    type V = CmdArgView;

    open spec fn view(&self) -> CmdArgView {
        match self {
            CMDarg::Import => CmdArgView::Import,
            CMDarg::Export => CmdArgView::Export,
            CMDarg::Git => CmdArgView::Git,
            CMDarg::Help => CmdArgView::Help,
            CMDarg::Verbose => CmdArgView::Verbose,
            CMDarg::Tar => CmdArgView::Tar,
            CMDarg::Error(s) => CmdArgView::Error(s@),
        }
    }
}

impl View for Arguments {
    type V = ArgumentsView;

    open spec fn view(&self) -> ArgumentsView {
        ArgumentsView {
            name: self.name@,
            mode: self.mode,
            directory: self.directory@,
            git: self.git,
            help: self.help,
            verbosity: self.verbosity,
            tar: self.tar,
        }
    }
}

/// The options of a list of options.
pub open spec fn options_view(v: Seq<CMDarg>) -> Seq<CmdArgView> {
    v.map_values(|c: CMDarg| c@)
}

/// The texts of a list of strings.
pub open spec fn texts_view(v: Seq<String>) -> Seq<Seq<char>> {
    v.map_values(|s: String| s@)
}

/// An argument with verbose options sets the reporting level from their
/// count (one step above `Info` for each, up to `Trace`); an argument
/// without any leaves the level as it was, so a `-v` given before the mode
/// stays in effect.
pub proof fn law_verbosity_per_argument(st: ArgumentsView, opts: Seq<CmdArgView>, v: int)
    requires
        0 <= v,
    ensures
        apply_options(st, opts, v) matches ArgsOutcome::Parsed(n) ==> n.verbosity == (if v
            + count_verbose(opts) > 0 {
            level_of(v + count_verbose(opts))
        } else {
            st.verbosity
        }),
    decreases opts.len(),
{
    if opts.len() > 0 {
        law_verbosity_per_argument(
            match opts[0] {
                CmdArgView::Import => ArgumentsView { mode: Mode::Import, ..st },
                CmdArgView::Export => ArgumentsView { mode: Mode::Export, ..st },
                CmdArgView::Git => ArgumentsView { git: true, ..st },
                CmdArgView::Help => ArgumentsView { help: true, ..st },
                CmdArgView::Tar => ArgumentsView { tar: true, ..st },
                _ => st,
            },
            opts.drop_first(),
            if opts[0] is Verbose { v + 1 } else { v },
        );
    }
}

/// The number of verbose options in `opts`.
pub open spec fn count_verbose(opts: Seq<CmdArgView>) -> int
    decreases opts.len(),
{
    if opts.len() == 0 {
        0
    } else {
        (if opts[0] is Verbose { 1int } else { 0int }) + count_verbose(opts.drop_first())
    }
}

/// The settings before any argument is read: no mode, no directory, no
/// flags, `Info` reporting.
pub open spec fn initial_arguments(name: Seq<char>) -> ArgumentsView {
    ArgumentsView {
        name: name,
        mode: Mode::Unset,
        directory: Seq::<char>::empty(),
        git: false,
        help: false,
        verbosity: Verbosity::Info,
        tar: false,
    }
}

/// The option that a letter of a short-option cluster such as `-ag` stands
/// for: `a` archive, `g` Git, `h` or `?` help, `v` verbose.
pub open spec fn letter_option(c: char) -> Option<CmdArgView> {
    if c == 'a' {
        Some(CmdArgView::Tar)
    } else if c == 'g' {
        Some(CmdArgView::Git)
    } else if c == 'h' || c == '?' {
        Some(CmdArgView::Help)
    } else if c == 'v' {
        Some(CmdArgView::Verbose)
    } else {
        None
    }
}

/// The options of the prefix `p` of the cluster `whole`: one for each
/// letter (an error for an unknown one), nothing for the first `-`, an
/// error for each later `-`.
pub open spec fn cluster_options(whole: Seq<char>, p: Seq<char>) -> Seq<CmdArgView>
    decreases p.len(),
{
    if p.len() == 0 {
        Seq::<CmdArgView>::empty()
    } else {
        let init = cluster_options(whole, p.drop_last());
        let c = p.last();
        if c != '-' {
            init.push(
                match letter_option(c) {
                    Some(o) => o,
                    None => CmdArgView::Error(whole),
                },
            )
        } else if p.drop_last().contains('-') {
            init.push(CmdArgView::Error(whole))
        } else {
            init
        }
    }
}

/// The options that the argument `a` stands for: `import` and `export`;
/// `--git`, `--help` and `--verbose`; a cluster of letters behind `-`; an
/// error for anything else.
pub open spec fn classify(a: Seq<char>) -> Seq<CmdArgView> {
    if a == "import"@ {
        seq![CmdArgView::Import]
    } else if a == "export"@ {
        seq![CmdArgView::Export]
    } else if a.len() >= 2 && a[0] == '-' && a[1] == '-' {
        if a == "--git"@ {
            seq![CmdArgView::Git]
        } else if a == "--help"@ {
            seq![CmdArgView::Help]
        } else if a == "--verbose"@ {
            seq![CmdArgView::Verbose]
        } else {
            seq![CmdArgView::Error(a)]
        }
    } else if a.len() >= 1 && a[0] == '-' {
        cluster_options(a, a)
    } else {
        seq![CmdArgView::Error(a)]
    }
}

/// How reading the command line ends.
pub enum ArgsOutcome {
    /// All arguments read, with these settings.
    Parsed(ArgumentsView),
    /// An argument could not be read; it is given.
    Failed(Seq<char>),
    /// One argument asked for more than 127 levels of verbosity, which the
    /// count of levels cannot hold.
    Overflow,
}

/// The reporting level `v` steps above `Info`: more verbose options give
/// more output, up to `Trace`.
pub open spec fn level_of(v: int) -> Verbosity {
    if v <= -2 {
        Verbosity::Error
    } else if v == -1 {
        Verbosity::Warn
    } else if v == 0 {
        Verbosity::Info
    } else if v == 1 {
        Verbosity::Debug
    } else {
        Verbosity::Trace
    }
}

/// The options of one argument applied in order to `st`, `v` verbose
/// options of this argument counted so far; where the argument has any,
/// the reporting level is then set from their count; an argument without
/// any leaves the level as it was.
pub open spec fn apply_options(st: ArgumentsView, opts: Seq<CmdArgView>, v: int) -> ArgsOutcome
    decreases opts.len(),
{
    if opts.len() == 0 {
        if v > 0 {
            ArgsOutcome::Parsed(ArgumentsView { verbosity: level_of(v), ..st })
        } else {
            ArgsOutcome::Parsed(st)
        }
    } else {
        let rest = opts.drop_first();
        match opts[0] {
            CmdArgView::Import => apply_options(ArgumentsView { mode: Mode::Import, ..st }, rest, v),
            CmdArgView::Export => apply_options(ArgumentsView { mode: Mode::Export, ..st }, rest, v),
            CmdArgView::Git => apply_options(ArgumentsView { git: true, ..st }, rest, v),
            CmdArgView::Help => apply_options(ArgumentsView { help: true, ..st }, rest, v),
            CmdArgView::Tar => apply_options(ArgumentsView { tar: true, ..st }, rest, v),
            CmdArgView::Verbose => if v >= 127 {
                ArgsOutcome::Overflow
            } else {
                apply_options(st, rest, v + 1)
            },
            CmdArgView::Error(s) => ArgsOutcome::Failed(s),
        }
    }
}

/// The arguments read in order from `st`: once a mode is set, the next
/// argument while there is no directory is the directory; every other
/// argument is read into options and applied.
pub open spec fn parse_from(st: ArgumentsView, args: Seq<Seq<char>>) -> ArgsOutcome
    decreases args.len(),
{
    if args.len() == 0 {
        ArgsOutcome::Parsed(st)
    } else if st.mode != Mode::Unset && st.directory.len() == 0 {
        parse_from(ArgumentsView { directory: args[0], ..st }, args.drop_first())
    } else {
        match apply_options(st, classify(args[0]), 0) {
            ArgsOutcome::Parsed(next) => parse_from(next, args.drop_first()),
            other => other,
        }
    }
}

/// How reading the whole command line ends; its first element is the name
/// of the program.
pub open spec fn parsearg_spec(args: Seq<Seq<char>>) -> ArgsOutcome {
    parse_from(initial_arguments(args[0]), args.drop_first())
}

/// A long option and its one-letter form mean the same: `--git` and `-g`,
/// `--help` and `-h`, `--verbose` and `-v`.
pub proof fn law_long_and_short_options()
    ensures
        classify("--git"@) == classify("-g"@),
        classify("--help"@) == classify("-h"@),
        classify("--verbose"@) == classify("-v"@),
{
    reveal_strlit("import");
    reveal_strlit("export");
    reveal_strlit("--git");
    reveal_strlit("--help");
    reveal_strlit("--verbose");
    reveal_strlit("-g");
    reveal_strlit("-h");
    reveal_strlit("-v");
    let g = "-g"@;
    let h = "-h"@;
    let v = "-v"@;
    assert(g.drop_last() == seq!['-']);
    assert(h.drop_last() == seq!['-']);
    assert(v.drop_last() == seq!['-']);
    assert(seq!['-'].drop_last() == Seq::<char>::empty());
    assert(!Seq::<char>::empty().contains('-'));
    assert("--help"@.len() != "--git"@.len());
    assert("--help"@[0] != "import"@[0] && "--help"@[0] != "export"@[0]);
    assert(h.len() != "import"@.len() && h.len() != "export"@.len());
    assert(h[1] != '-');
    assert(classify(h) == cluster_options(h, h));
    assert(classify("--help"@) == seq![CmdArgView::Help]);
    let dash = seq!['-'];
    let none = Seq::<char>::empty();
    assert(cluster_options(g, none) == Seq::<CmdArgView>::empty());
    assert(cluster_options(h, none) == Seq::<CmdArgView>::empty());
    assert(cluster_options(v, none) == Seq::<CmdArgView>::empty());
    assert(dash.last() == '-' && dash.drop_last() == none);
    assert(cluster_options(g, dash) == Seq::<CmdArgView>::empty());
    assert(cluster_options(h, dash) == Seq::<CmdArgView>::empty());
    assert(cluster_options(v, dash) == Seq::<CmdArgView>::empty());
    assert(g.last() == 'g' && letter_option('g') == Some(CmdArgView::Git));
    assert(h.last() == 'h' && letter_option('h') == Some(CmdArgView::Help));
    assert(v.last() == 'v' && letter_option('v') == Some(CmdArgView::Verbose));
    assert(cluster_options(g, g) == Seq::<CmdArgView>::empty().push(CmdArgView::Git));
    assert(cluster_options(h, h) == Seq::<CmdArgView>::empty().push(CmdArgView::Help));
    assert(cluster_options(v, v) == Seq::<CmdArgView>::empty().push(CmdArgView::Verbose));
}

/// Options are read wherever they stand on the line: once the mode and the
/// directory are set, each further argument is read into options and
/// applied like any other.
pub proof fn law_options_after_directory(st: ArgumentsView, a: Seq<char>, rest: Seq<Seq<char>>)
    requires
        st.mode != Mode::Unset,
        st.directory.len() > 0,
    ensures
        parse_from(st, seq![a] + rest) == match apply_options(st, classify(a), 0) {
            ArgsOutcome::Parsed(n) => parse_from(n, rest),
            other => other,
        },
{
    assert((seq![a] + rest)[0] == a);
    assert((seq![a] + rest).drop_first() == rest);
}

/// A Git option given after the mode and the directory takes effect: for
/// any program name and any directory, `import <dir> -g` asks for Git.
pub proof fn law_git_after_directory(p: Seq<char>, d: Seq<char>)
    requires
        d.len() > 0,
    ensures
        parsearg_spec(seq![p, "import"@, d, "-g"@]) == ArgsOutcome::Parsed(
            ArgumentsView {
                name: p,
                mode: Mode::Import,
                directory: d,
                git: true,
                help: false,
                verbosity: Verbosity::Info,
                tar: false,
            },
        ),
{
    reveal_strlit("import");
    reveal_strlit("export");
    reveal_strlit("-g");
    reveal_strlit("--git");
    reveal_strlit("--help");
    reveal_strlit("--verbose");
    let args = seq![p, "import"@, d, "-g"@];
    let g = "-g"@;
    let st0 = initial_arguments(p);
    let st1 = ArgumentsView { mode: Mode::Import, ..st0 };
    let st2 = ArgumentsView { directory: d, ..st1 };
    let st3 = ArgumentsView { git: true, ..st2 };
    let r1 = args.drop_first();
    let r2 = r1.drop_first();
    let r3 = r2.drop_first();
    assert(r1 == seq!["import"@, d, g]);
    assert(r2 == seq![d, g]);
    assert(r3 == seq![g]);
    assert(r3.drop_first() == Seq::<Seq<char>>::empty());
    assert(classify("import"@) == seq![CmdArgView::Import]);
    let io = seq![CmdArgView::Import];
    assert(io.drop_first() == Seq::<CmdArgView>::empty());
    assert(apply_options(st0, io, 0) == apply_options(st1, Seq::<CmdArgView>::empty(), 0));
    assert(apply_options(st1, Seq::<CmdArgView>::empty(), 0) == ArgsOutcome::Parsed(st1));
    // `-g` is a cluster of one letter.
    let dash = seq!['-'];
    let none = Seq::<char>::empty();
    assert(g.len() == 2 && g[0] == '-' && g[1] == 'g');
    assert(g != "import"@ && g != "export"@);
    assert(g.drop_last() == dash);
    assert(dash.last() == '-' && dash.drop_last() == none);
    assert(cluster_options(g, none) == Seq::<CmdArgView>::empty());
    assert(!none.contains('-'));
    assert(cluster_options(g, dash) == Seq::<CmdArgView>::empty());
    assert(cluster_options(g, g) == Seq::<CmdArgView>::empty().push(CmdArgView::Git));
    assert(classify(g) == cluster_options(g, g));
    let go = seq![CmdArgView::Git];
    assert(Seq::<CmdArgView>::empty().push(CmdArgView::Git) == go);
    assert(go.drop_first() == Seq::<CmdArgView>::empty());
    assert(apply_options(st2, go, 0) == apply_options(st3, Seq::<CmdArgView>::empty(), 0));
    assert(apply_options(st3, Seq::<CmdArgView>::empty(), 0) == ArgsOutcome::Parsed(st3));
    assert(parse_from(st3, Seq::<Seq<char>>::empty()) == ArgsOutcome::Parsed(st3));
    assert(parse_from(st2, r3) == parse_from(st3, r3.drop_first()));
    assert(parse_from(st1, r2) == parse_from(st2, r3));
    assert(parse_from(st0, r1) == parse_from(st1, r2));
}

/// The option of one letter of a cluster: that of the letter, or the
/// error naming the whole cluster.
pub open spec fn letter_or_error(whole: Seq<char>, c: char) -> CmdArgView {
    if c == 'a' {
        CmdArgView::Tar
    } else if c == 'g' {
        CmdArgView::Git
    } else if c == 'h' || c == '?' {
        CmdArgView::Help
    } else if c == 'v' {
        CmdArgView::Verbose
    } else {
        CmdArgView::Error(whole)
    }
}

proof fn lemma_cluster_letters(whole: Seq<char>, w: Seq<char>)
    requires
        !w.contains('-'),
    ensures
        cluster_options(whole, seq!['-'] + w) == w.map_values(|c: char| letter_or_error(whole, c)),
    decreases w.len(),
{
    let p = seq!['-'] + w;
    if w.len() == 0 {
        assert(p == seq!['-']);
        assert(p.drop_last() == Seq::<char>::empty());
        assert(!Seq::<char>::empty().contains('-'));
        assert(cluster_options(whole, Seq::<char>::empty()) == Seq::<CmdArgView>::empty());
    } else {
        let v = w.drop_last();
        assert(!v.contains('-')) by {
            if v.contains('-') {
                let k = choose|k: int| 0 <= k < v.len() && v[k] == '-';
                assert(w[k] == '-');
            }
        }
        lemma_cluster_letters(whole, v);
        assert(p.drop_last() == seq!['-'] + v);
        assert(p.last() == w.last());
        assert(w.last() != '-') by {
            assert(w[w.len() - 1] == w.last());
        }
        assert(w.map_values(|c: char| letter_or_error(whole, c)) == v.map_values(
            |c: char| letter_or_error(whole, c),
        ).push(letter_or_error(whole, w.last())));
    }
}

/// A cluster `-` followed by letters (and no other `-`) stands for one
/// option per letter, in order: `a` archive, `g` Git, `h` or `?` help, `v`
/// verbose, and an error naming the whole argument for any other letter.
pub proof fn law_short_option_cluster(w: Seq<char>)
    requires
        !w.contains('-'),
    ensures
        classify(seq!['-'] + w) == w.map_values(|c: char| letter_or_error(seq!['-'] + w, c)),
{
    let a = seq!['-'] + w;
    reveal_strlit("import");
    reveal_strlit("export");
    assert(a[0] == '-');
    assert(a != "import"@ && a != "export"@) by {
        assert("import"@[0] == 'i');
        assert("export"@[0] == 'e');
    }
    if a.len() >= 2 {
        assert(a[1] == w[0]);
    }
    lemma_cluster_letters(a, w);
}

impl Arguments {
    /// The settings before any argument is read, for the program `name`.
    pub fn new(name: String) -> (a: Arguments)
        ensures
            a@ == initial_arguments(name@),
    {
        Arguments {
            name: name,
            mode: Mode::Unset,
            directory: String::new(),
            git: false,
            help: false,
            verbosity: Verbosity::Info,
            tar: false,
        }
    }
}

/// The option that a letter of a cluster stands for, if any.
fn letter(c: char) -> (r: Option<CMDarg>)
    ensures
        match letter_option(c) {
            Some(o) => r matches Some(x) && x@ == o,
            None => r is None,
        },
{
    if c == 'a' {
        Some(CMDarg::Tar)
    } else if c == 'g' {
        Some(CMDarg::Git)
    } else if c == 'h' || c == '?' {
        Some(CMDarg::Help)
    } else if c == 'v' {
        Some(CMDarg::Verbose)
    } else {
        None
    }
}

/// The options that the argument `arg` stands for.
pub fn classify_arg(arg: &String) -> (r: Vec<CMDarg>)
    ensures
        options_view(r@) == classify(arg@),
{
    let mut out: Vec<CMDarg> = Vec::new();
    if *arg == String::from_str("import") {
        out.push(CMDarg::Import);
        assert(options_view(out@) == seq![CmdArgView::Import]);
        return out;
    }
    if *arg == String::from_str("export") {
        out.push(CMDarg::Export);
        assert(options_view(out@) == seq![CmdArgView::Export]);
        return out;
    }
    let chars = chars_of(arg.as_str());
    if chars.len() >= 2 && chars[0] == '-' && chars[1] == '-' {
        let o = if *arg == String::from_str("--git") {
            CMDarg::Git
        } else if *arg == String::from_str("--help") {
            CMDarg::Help
        } else if *arg == String::from_str("--verbose") {
            CMDarg::Verbose
        } else {
            CMDarg::Error(arg.clone())
        };
        let ghost ov = o@;
        out.push(o);
        assert(options_view(out@) == seq![ov]);
        return out;
    }
    if chars.len() >= 1 && chars[0] == '-' {
        let ghost whole = arg@;
        let mut seen_dash = false;
        for i in 0..chars.len()
            invariant
                chars@ == whole,
                whole == arg@,
                options_view(out@) == cluster_options(whole, chars@.take(i as int)),
                seen_dash == chars@.take(i as int).contains('-'),
        {
            let c = chars[i];
            let ghost p = chars@.take(i + 1);
            let ghost before = options_view(out@);
            proof {
                assert(p.drop_last() == chars@.take(i as int));
                assert(p.last() == c);
            }
            if c != '-' {
                let o = match letter(c) {
                    Some(x) => x,
                    None => CMDarg::Error(arg.clone()),
                };
                let ghost ov = o@;
                out.push(o);
                assert(options_view(out@) == before.push(ov));
            } else if seen_dash {
                out.push(CMDarg::Error(arg.clone()));
                assert(options_view(out@) == before.push(CmdArgView::Error(whole)));
            }
            proof {
                if c == '-' {
                    assert(p[i as int] == '-');
                }
                if p.contains('-') && c != '-' {
                    let k = choose|k: int| 0 <= k < p.len() && p[k] == '-';
                    assert(chars@.take(i as int)[k] == '-');
                }
                if chars@.take(i as int).contains('-') {
                    let k = choose|k: int| 0 <= k < i && chars@.take(i as int)[k] == '-';
                    assert(p[k] == '-');
                }
            }
            seen_dash = seen_dash || c == '-';
        }
        assert(chars@.take(chars.len() as int) == chars@);
        return out;
    }
    out.push(CMDarg::Error(arg.clone()));
    assert(options_view(out@) == seq![CmdArgView::Error(arg@)]);
    out
}

/// How applying options, or reading the command line, ended.
enum Step {
    Done,
    Failed(String),
    Overflow,
}

/// The options `opts` of one argument applied in order to `st`.
fn apply_arg(st: &mut Arguments, opts: &Vec<CMDarg>) -> (r: Step)
    ensures
        match apply_options(old(st)@, options_view(opts@), 0) {
            ArgsOutcome::Parsed(n) => r is Done && final(st)@ == n,
            ArgsOutcome::Failed(t) => r matches Step::Failed(e) && e@ == t,
            ArgsOutcome::Overflow => r is Overflow,
        },
{
    let ghost whole = apply_options(st@, options_view(opts@), 0);
    let ghost ov = options_view(opts@);
    let mut vcount: i8 = 0;
    let mut i: usize = 0;
    proof {
        assert(ov.skip(0) == ov);
    }
    while i < opts.len()
        invariant
            ov == options_view(opts@),
            ov.len() == opts@.len(),
            whole == apply_options(old(st)@, ov, 0),
            i <= opts.len(),
            0 <= vcount,
            apply_options(st@, ov.skip(i as int), vcount as int) == whole,
        decreases opts.len() - i,
    {
        let ghost rest = ov.skip(i as int);
        proof {
            assert(rest[0] == opts@[i as int]@);
            assert(rest.drop_first() == ov.skip(i + 1));
        }
        match &opts[i] {
            CMDarg::Import => st.mode = Mode::Import,
            CMDarg::Export => st.mode = Mode::Export,
            CMDarg::Git => st.git = true,
            CMDarg::Help => st.help = true,
            CMDarg::Tar => st.tar = true,
            CMDarg::Verbose => {
                if vcount == 127 {
                    return Step::Overflow;
                }
                vcount = vcount + 1;
            },
            CMDarg::Error(e) => {
                return Step::Failed(e.clone());
            },
        }
        i = i + 1;
    }
    proof {
        assert(ov.skip(i as int) == Seq::<CmdArgView>::empty());
    }
    if vcount > 0 {
        st.verbosity = if vcount == 1 {
            Verbosity::Debug
        } else {
            Verbosity::Trace
        };
    }
    Step::Done
}

/// Reads the command line `args`, the first of them the program's name.
fn read_args(args: &Vec<String>) -> (r: (Arguments, Step))
    requires
        args@.len() >= 1,
    ensures
        match parsearg_spec(texts_view(args@)) {
            ArgsOutcome::Parsed(n) => r.1 is Done && r.0@ == n,
            ArgsOutcome::Failed(t) => r.1 matches Step::Failed(e) && e@ == t,
            ArgsOutcome::Overflow => r.1 is Overflow,
        },
{
    let ghost ts = texts_view(args@);
    let mut retmode = Arguments::new(args[0].clone());
    proof {
        assert(ts[0] == args@[0]@);
        assert(ts.drop_first() == ts.skip(1));
    }
    let mut j: usize = 1;
    while j < args.len()
        invariant
            ts == texts_view(args@),
            ts.len() == args@.len(),
            1 <= j <= args.len(),
            parse_from(retmode@, ts.skip(j as int)) == parsearg_spec(ts),
        decreases args.len() - j,
    {
        let ghost rest = ts.skip(j as int);
        proof {
            assert(rest[0] == args@[j as int]@);
            assert(rest.drop_first() == ts.skip(j + 1));
        }
        let arg = &args[j];
        if retmode.mode != Mode::Unset && retmode.directory.as_str().is_empty() {
            retmode.directory = arg.clone();
        } else {
            let opts = classify_arg(arg);
            let step = apply_arg(&mut retmode, &opts);
            match step {
                Step::Done => {},
                _ => {
                    return (retmode, step);
                },
            }
        }
        j = j + 1;
    }
    proof {
        assert(ts.skip(j as int) == Seq::<Seq<char>>::empty());
    }
    (retmode, Step::Done)
}

/// Reads the command line `args`, the first of them the program's name:
/// after `import` or `export`, the first argument read while no directory
/// is set is the directory; every other argument is read into options
/// (`classify`) and applied in order; an argument with verbose options sets
/// the reporting level from their count (one: `Debug`, more: `Trace`), one
/// without leaves it as it was. The first
/// argument that is no option is the error. The line must not ask for more
/// than 127 verbose options in one argument (see `verbosity_overflows`).
pub fn parsearg(args: &Vec<String>) -> (r: Result<Arguments, ArgError>)
    requires
        args@.len() >= 1,
        !(parsearg_spec(texts_view(args@)) is Overflow),
    ensures
        match parsearg_spec(texts_view(args@)) {
            ArgsOutcome::Parsed(n) => r matches Ok(a) && a@ == n,
            ArgsOutcome::Failed(t) => r matches Err(ArgError::FailedToParse(e)) && e@ == t,
            ArgsOutcome::Overflow => false,
        },
{
    let (retmode, step) = read_args(args);
    match step {
        Step::Done => Ok(retmode),
        Step::Failed(e) => Err(ArgError::FailedToParse(e)),
        Step::Overflow => Err(ArgError::FailedToParse(String::new())),
    }
}

/// Whether reading the command line `args` would count more than 127
/// verbose options in one argument.
pub fn verbosity_overflows(args: &Vec<String>) -> (r: bool)
    requires
        args@.len() >= 1,
    ensures
        r == (parsearg_spec(texts_view(args@)) is Overflow),
{
    let (_, step) = read_args(args);
    match step {
        Step::Overflow => true,
        _ => false,
    }
}

} // verus!
