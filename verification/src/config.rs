//! The configuration file: its text read into lines of phrases, the lines
//! read into commands, the `~` at the head of a path replaced by the home
//! directory, and a file under the home directory placed under another
//! directory, with the component rules of `std::path` for `/` separators.

use vstd::prelude::*;

use crate::text::{
    chars_of, lemma_join_split, lemma_split_on_chars, lemma_split_on_concat,
    join_with, lemma_split_join, lemma_split_on_first_char, lemma_split_on_none, lemma_split_on_first, lemma_split_on_shape, seqs_of,
    join_chars, split_chars, split_on, string_of,
};

verus! {

/// The phrases of a list of strings.
pub open spec fn line_view(l: Seq<String>) -> Seq<Seq<char>> {
    l.map_values(|p: String| p@)
}

/// The lines of phrases held by a list of lines.
pub open spec fn lines_view(v: Seq<Vec<String>>) -> Seq<Seq<Seq<char>>> {
    v.map_values(|l: Vec<String>| line_view(l@))
}

/// Whether a line of the file is passed over: it is empty or starts with `#`.
pub open spec fn is_skipped_line(l: Seq<char>) -> bool {
    l.len() == 0 || l[0] == '#'
}

/// Whether a phrase starts a comment.
pub open spec fn starts_comment(p: Seq<char>) -> bool {
    p.len() > 0 && p[0] == '#'
}

/// The phrases before the first one that starts a comment.
pub open spec fn before_comment(ps: Seq<Seq<char>>) -> Seq<Seq<char>>
    decreases ps.len(),
{
    if ps.len() == 0 || starts_comment(ps[0]) {
        Seq::<Seq<char>>::empty()
    } else {
        seq![ps[0]] + before_comment(ps.drop_first())
    }
}

/// The phrases of a line: its pieces between spaces, up to a comment.
pub open spec fn phrases_of(l: Seq<char>) -> Seq<Seq<char>> {
    before_comment(split_on(l, ' '))
}

/// The phrase lists of the lines that are not passed over, in order.
pub open spec fn lines_of(lines: Seq<Seq<char>>) -> Seq<Seq<Seq<char>>>
    decreases lines.len(),
{
    if lines.len() == 0 {
        Seq::<Seq<Seq<char>>>::empty()
    } else {
        let init = lines_of(lines.drop_last());
        if is_skipped_line(lines.last()) {
            init
        } else {
            init.push(phrases_of(lines.last()))
        }
    }
}

/// What a configuration text reads into: for each line that is neither
/// empty nor starts with `#`, its phrases.
pub open spec fn config_spec(text: Seq<char>) -> Seq<Seq<Seq<char>>> {
    lines_of(split_on(text, '\n'))
}

proof fn lemma_before_comment_take(ps: Seq<Seq<char>>, j: int)
    requires
        0 <= j <= ps.len(),
        forall|k: int| 0 <= k < j ==> !starts_comment(#[trigger] ps[k]),
        j == ps.len() || starts_comment(ps[j]),
    ensures
        before_comment(ps) == ps.take(j),
    decreases j,
{
    if j > 0 {
        let t = ps.drop_first();
        assert forall|k: int| 0 <= k < j - 1 implies !starts_comment(#[trigger] t[k]) by {
            assert(t[k] == ps[k + 1]);
        }
        lemma_before_comment_take(t, j - 1);
        assert(ps.take(j) == seq![ps[0]] + t.take(j - 1));
    } else {
        assert(ps.take(0) == Seq::<Seq<char>>::empty());
    }
}

/// Whether a list of phrases is a line that the commands can be read from:
/// it has a first phrase, no phrase holds a space or a line break, and no
/// phrase starts with `#`.
pub open spec fn is_phrase_line(ps: Seq<Seq<char>>) -> bool {
    &&& ps.len() > 0
    &&& forall|k: int, j: int|
        0 <= k < ps.len() && 0 <= j < ps[k].len() ==> #[trigger] ps[k][j] != ' ' && ps[k][j]
            != '\n'
    &&& forall|k: int| 0 <= k < ps.len() ==> !starts_comment(#[trigger] ps[k])
}

proof fn lemma_before_comment_elems(ps: Seq<Seq<char>>)
    ensures
        before_comment(ps).len() <= ps.len(),
        forall|k: int|
            0 <= k < before_comment(ps).len() ==> #[trigger] before_comment(ps)[k] == ps[k]
                && !starts_comment(ps[k]),
        ps.len() > 0 && !starts_comment(ps[0]) ==> before_comment(ps).len() > 0,
    decreases ps.len(),
{
    if ps.len() > 0 && !starts_comment(ps[0]) {
        lemma_before_comment_elems(ps.drop_first());
        let b = before_comment(ps);
        assert forall|k: int| 0 <= k < b.len() implies #[trigger] b[k] == ps[k] && !starts_comment(
            ps[k],
        ) by {
            if k > 0 {
                assert(b[k] == before_comment(ps.drop_first())[k - 1]);
            }
        }
    }
}

proof fn lemma_phrases_of_shape(l: Seq<char>)
    requires
        !is_skipped_line(l),
        !l.contains('\n'),
    ensures
        is_phrase_line(phrases_of(l)),
{
    let ps = split_on(l, ' ');
    lemma_split_on_shape(l, ' ');
    lemma_split_on_chars(l, ' ');
    lemma_split_on_first(l, ' ');
    lemma_before_comment_elems(ps);
    if ps[0].len() > 0 {
        assert(ps[0][0] == l.take(ps[0].len() as int)[0]);
        assert(ps[0][0] == l[0]);
    }
    let b = phrases_of(l);
    assert forall|k: int, j: int| 0 <= k < b.len() && 0 <= j < b[k].len() implies #[trigger] b[k][j]
        != ' ' && b[k][j] != '\n' by {
        assert(b[k] == ps[k]);
        assert(l.contains(ps[k][j]));
    }
}

proof fn lemma_lines_of_shape(ls: Seq<Seq<char>>)
    requires
        forall|i: int| 0 <= i < ls.len() ==> !(#[trigger] ls[i]).contains('\n'),
    ensures
        forall|i: int| 0 <= i < lines_of(ls).len() ==> is_phrase_line(#[trigger] lines_of(ls)[i]),
    decreases ls.len(),
{
    if ls.len() > 0 {
        let init = ls.drop_last();
        assert forall|i: int| 0 <= i < init.len() implies !(#[trigger] init[i]).contains('\n') by {
            assert(init[i] == ls[i]);
        }
        lemma_lines_of_shape(init);
        if !is_skipped_line(ls.last()) {
            assert(ls[ls.len() - 1] == ls.last());
            lemma_phrases_of_shape(ls.last());
            let r = lines_of(ls);
            assert forall|i: int| 0 <= i < r.len() implies is_phrase_line(#[trigger] r[i]) by {
                if i < lines_of(init).len() {
                    assert(r[i] == lines_of(init)[i]);
                }
            }
        }
    }
}

/// Every line that a configuration text reads into has a first phrase, and
/// no phrase holds a space or a line break or starts with `#`.
pub proof fn law_config_lines_shape(text: Seq<char>)
    ensures
        forall|i: int| 0 <= i < config_spec(text).len() ==> is_phrase_line(#[trigger] config_spec(text)[i]),
{
    let ls = split_on(text, '\n');
    lemma_split_on_shape(text, '\n');
    assert forall|i: int| 0 <= i < ls.len() implies !(#[trigger] ls[i]).contains('\n') by {
        if ls[i].contains('\n') {
            let j = choose|j: int| 0 <= j < ls[i].len() && ls[i][j] == '\n';
        }
    }
    lemma_lines_of_shape(ls);
}

proof fn lemma_lines_of_concat(x: Seq<Seq<char>>, y: Seq<Seq<char>>)
    ensures
        lines_of(x + y) == lines_of(x) + lines_of(y),
    decreases y.len(),
{
    if y.len() == 0 {
        assert(x + y == x);
        assert(lines_of(x) + lines_of(y) == lines_of(x));
    } else {
        lemma_lines_of_concat(x, y.drop_last());
        assert((x + y).drop_last() == x + y.drop_last());
        assert((x + y).last() == y.last());
        if !is_skipped_line(y.last()) {
            assert((lines_of(x) + lines_of(y.drop_last())).push(phrases_of(y.last())) == lines_of(x)
                + lines_of(y.drop_last()).push(phrases_of(y.last())));
        }
    }
}

/// A configuration is read line by line: the text of two parts with a line
/// break between them reads into the lines of the first part followed by
/// those of the second.
pub proof fn law_config_lines_concat(a: Seq<char>, b: Seq<char>)
    ensures
        config_spec(a + seq!['\n'] + b) == config_spec(a) + config_spec(b),
{
    lemma_split_on_concat(a, b, '\n');
    lemma_lines_of_concat(split_on(a, '\n'), split_on(b, '\n'));
}

proof fn lemma_config_spec_single(l: Seq<char>)
    requires
        !l.contains('\n'),
    ensures
        config_spec(l) == (if is_skipped_line(l) {
            Seq::<Seq<Seq<char>>>::empty()
        } else {
            seq![phrases_of(l)]
        }),
{
    lemma_split_on_none(l, '\n');
    let one = seq![l];
    assert(one.drop_last() == Seq::<Seq<char>>::empty());
    assert(one.last() == l);
    assert(lines_of(Seq::<Seq<char>>::empty()) == Seq::<Seq<Seq<char>>>::empty());
    assert(config_spec(l) == lines_of(one));
    assert(Seq::<Seq<Seq<char>>>::empty().push(phrases_of(l)) == seq![phrases_of(l)]);
}

/// A line that is empty or starts with `#` adds nothing to what a
/// configuration reads into, wherever it stands: between two parts, before
/// the rest, or after it.
pub proof fn law_skipped_line(a: Seq<char>, l: Seq<char>, b: Seq<char>)
    requires
        is_skipped_line(l),
        !l.contains('\n'),
    ensures
        config_spec(a + seq!['\n'] + l + seq!['\n'] + b) == config_spec(a + seq!['\n'] + b),
        config_spec(l + seq!['\n'] + b) == config_spec(b),
        config_spec(a + seq!['\n'] + l) == config_spec(a),
{
    let nl = seq!['\n'];
    let e = Seq::<Seq<Seq<char>>>::empty();
    lemma_config_spec_single(l);
    law_config_lines_concat(l, b);
    assert(e + config_spec(b) == config_spec(b));
    law_config_lines_concat(a, l + nl + b);
    assert(a + nl + l + nl + b == a + nl + (l + nl + b));
    law_config_lines_concat(a, b);
    law_config_lines_concat(a, l);
    assert(config_spec(a) + e == config_spec(a));
}

proof fn lemma_before_comment_concat(x: Seq<Seq<char>>, y: Seq<Seq<char>>)
    requires
        y.len() > 0,
        starts_comment(y[0]),
    ensures
        before_comment(x + y) == before_comment(x),
    decreases x.len(),
{
    if x.len() == 0 {
        assert(x + y == y);
    } else {
        assert((x + y)[0] == x[0]);
        assert((x + y).drop_first() == x.drop_first() + y);
        lemma_before_comment_concat(x.drop_first(), y);
    }
}

/// A comment written after the phrases of a line that is read (a space, a
/// `#` and any text) leaves what the line reads into unchanged.
pub proof fn law_trailing_comment(a: Seq<char>, l: Seq<char>, t: Seq<char>, b: Seq<char>)
    requires
        !is_skipped_line(l),
        !l.contains('\n'),
        !t.contains('\n'),
    ensures
        phrases_of(l + seq![' ', '#'] + t) == phrases_of(l),
        config_spec(l + seq![' ', '#'] + t) == config_spec(l),
        config_spec(a + seq!['\n'] + (l + seq![' ', '#'] + t) + seq!['\n'] + b) == config_spec(
            a + seq!['\n'] + l + seq!['\n'] + b,
        ),
{
    let h = seq!['#'] + t;
    let w = l + seq![' ', '#'] + t;
    assert(w == l + seq![' '] + h);
    assert(!w.contains('\n')) by {
        if w.contains('\n') {
            let k = choose|k: int| 0 <= k < w.len() && w[k] == '\n';
            if k < l.len() {
                assert(l[k] == '\n');
            } else if k >= l.len() + 2 {
                assert(t[k - l.len() - 2] == '\n');
            }
        }
    }
    lemma_split_on_concat(l, h, ' ');
    lemma_split_on_shape(h, ' ');
    lemma_split_on_first_char(h, ' ');
    lemma_before_comment_concat(split_on(l, ' '), split_on(h, ' '));
    lemma_config_spec_single(l);
    lemma_config_spec_single(w);
    assert(w[0] == l[0]);
    let nl = seq!['\n'];
    law_config_lines_concat(w, b);
    law_config_lines_concat(l, b);
    law_config_lines_concat(a, w + nl + b);
    law_config_lines_concat(a, l + nl + b);
    assert(a + nl + w + nl + b == a + nl + (w + nl + b));
    assert(a + nl + l + nl + b == a + nl + (l + nl + b));
}

/// The lines that are read: those neither empty nor starting with `#`.
pub open spec fn kept_lines(ls: Seq<Seq<char>>) -> Seq<Seq<char>>
    decreases ls.len(),
{
    if ls.len() == 0 {
        Seq::<Seq<char>>::empty()
    } else if is_skipped_line(ls.last()) {
        kept_lines(ls.drop_last())
    } else {
        kept_lines(ls.drop_last()).push(ls.last())
    }
}

/// Whether the line `m` is the line `l`, or `l` with a comment (a space, a
/// `#` and text without a line break) written after it.
pub open spec fn same_or_commented(m: Seq<char>, l: Seq<char>) -> bool {
    m == l || exists|t: Seq<char>| !t.contains('\n') && m == l + seq![' ', '#'] + t
}

proof fn lemma_lines_of_kept(ls: Seq<Seq<char>>)
    ensures
        lines_of(ls) == kept_lines(ls).map_values(|l: Seq<char>| phrases_of(l)),
        forall|i: int| 0 <= i < kept_lines(ls).len() ==> !is_skipped_line(#[trigger] kept_lines(ls)[i]),
        (forall|i: int| 0 <= i < ls.len() ==> !(#[trigger] ls[i]).contains('\n')) ==> forall|i: int|
            0 <= i < kept_lines(ls).len() ==> !(#[trigger] kept_lines(ls)[i]).contains('\n'),
    decreases ls.len(),
{
    if ls.len() > 0 {
        let init = ls.drop_last();
        lemma_lines_of_kept(init);
        if (forall|i: int| 0 <= i < ls.len() ==> !(#[trigger] ls[i]).contains('\n')) {
            assert forall|i: int| 0 <= i < init.len() implies !(#[trigger] init[i]).contains('\n') by {
                assert(init[i] == ls[i]);
            }
            assert(!ls.last().contains('\n')) by {
                assert(ls[ls.len() - 1] == ls.last());
            }
        }
        let k = kept_lines(init);
        if !is_skipped_line(ls.last()) {
            assert(k.push(ls.last()).map_values(|l: Seq<char>| phrases_of(l)) == k.map_values(
                |l: Seq<char>| phrases_of(l),
            ).push(phrases_of(ls.last())));
        }
    }
}

proof fn lemma_config_spec_join(ls: Seq<Seq<char>>)
    requires
        forall|i: int| 0 <= i < ls.len() ==> !(#[trigger] ls[i]).contains('\n'),
    ensures
        config_spec(join_with(ls, '\n')) == lines_of(ls),
{
    if ls.len() > 0 {
        lemma_split_join(ls, '\n');
    } else {
        let e = Seq::<char>::empty();
        assert(join_with(ls, '\n') == e);
        assert(split_on(e, '\n') == seq![e]);
        let one = seq![e];
        assert(one.drop_last() == Seq::<Seq<char>>::empty());
        assert(one.last() == e);
        assert(lines_of(one) == lines_of(Seq::<Seq<char>>::empty()));
    }
}

/// Blank lines and comments never change what a configuration reads into:
/// a text whose lines are those of another, with lines that are empty or
/// start with `#` inserted anywhere and in any number, and with a comment
/// written after any of the lines that are read, reads into the same lines
/// of phrases.
pub proof fn law_comments_change_nothing(ls: Seq<Seq<char>>, ms: Seq<Seq<char>>)
    requires
        forall|i: int| 0 <= i < ls.len() ==> !(#[trigger] ls[i]).contains('\n'),
        forall|i: int| 0 <= i < ms.len() ==> !(#[trigger] ms[i]).contains('\n'),
        kept_lines(ms).len() == kept_lines(ls).len(),
        forall|i: int|
            0 <= i < kept_lines(ls).len() ==> same_or_commented(
                #[trigger] kept_lines(ms)[i],
                kept_lines(ls)[i],
            ),
    ensures
        config_spec(join_with(ms, '\n')) == config_spec(join_with(ls, '\n')),
{
    lemma_config_spec_join(ls);
    lemma_config_spec_join(ms);
    lemma_lines_of_kept(ls);
    lemma_lines_of_kept(ms);
    let kl = kept_lines(ls);
    let km = kept_lines(ms);
    let e = Seq::<char>::empty();
    assert forall|i: int| 0 <= i < kl.len() implies phrases_of(#[trigger] km[i]) == phrases_of(
        kl[i],
    ) by {
        if km[i] != kl[i] {
            assert(same_or_commented(km[i], kl[i]));
            let t = choose|t: Seq<char>| !t.contains('\n') && km[i] == kl[i] + seq![' ', '#'] + t;
            law_trailing_comment(e, kl[i], t, e);
        }
    }
    assert(km.map_values(|l: Seq<char>| phrases_of(l)) == kl.map_values(
        |l: Seq<char>| phrases_of(l),
    ));
}

/// The phrases of `l` as strings.
fn phrases_of_line(l: &Vec<char>) -> (r: Vec<String>)
    ensures
        line_view(r@) == phrases_of(l@),
{
    let pieces = split_chars(l, ' ');
    let ghost ps = seqs_of(pieces@);
    let mut r: Vec<String> = Vec::new();
    let mut j: usize = 0;
    while j < pieces.len()
        invariant_except_break
            forall|k: int| 0 <= k < j ==> !starts_comment(#[trigger] ps[k]),
        invariant
            ps == seqs_of(pieces@),
            ps.len() == pieces@.len(),
            j <= pieces.len(),
            line_view(r@) == ps.take(j as int),
        ensures
            forall|k: int| 0 <= k < j ==> !starts_comment(#[trigger] ps[k]),
            j == ps.len() || starts_comment(ps[j as int]),
        decreases pieces.len() - j,
    {
        let piece = &pieces[j];
        assert(ps[j as int] == piece@);
        if piece.len() > 0 && piece[0] == '#' {
            break;
        }
        let ghost before = line_view(r@);
        let p = string_of(piece);
        r.push(p);
        proof {
            assert(line_view(r@) == before.push(piece@));
            assert(ps.take(j + 1) == ps.take(j as int).push(ps[j as int]));
        }
        j = j + 1;
    }
    proof {
        lemma_before_comment_take(ps, j as int);
    }
    r
}

/// The text of a configuration read into lines of phrases: the text is cut
/// at each line break; lines that are empty or start with `#` are passed
/// over; each other line is cut at each space, and its phrases end before
/// the first one that starts with `#`.
pub fn config_lines(text: &str) -> (lines: Vec<Vec<String>>)
    ensures
        lines_view(lines@) == config_spec(text@),
{
    let chars = chars_of(text);
    let raw = split_chars(&chars, '\n');
    let ghost ls = seqs_of(raw@);
    let mut lines: Vec<Vec<String>> = Vec::new();
    for i in 0..raw.len()
        invariant
            ls == seqs_of(raw@),
            ls == split_on(text@, '\n'),
            lines_view(lines@) == lines_of(ls.take(i as int)),
    {
        let line = &raw[i];
        proof {
            assert(ls.take(i + 1).drop_last() == ls.take(i as int));
            assert(ls[i as int] == line@);
        }
        if line.len() == 0 || line[0] == '#' {
        } else {
            let ghost before = lines_view(lines@);
            let phrases = phrases_of_line(line);
            lines.push(phrases);
            assert(lines_view(lines@) == before.push(phrases_of(line@)));
        }
    }
    assert(ls.take(raw.len() as int) == ls);
    lines
}

/// A command of the configuration: copy a directory's files, or one file.
#[derive(Debug)]
pub enum Command {
    /// `diradd <path>`: every file under the directory, at any depth.
    DirAdd(String),
    /// `fileadd <path>`: the one file.
    FileAdd(String),
}

/// Why reading the commands stopped.
#[derive(Debug)]
pub enum ConfigError {
    /// A line starts with a phrase that is no command; it is given.
    UnknownCommand(String),
    /// A command line has more than one argument; the line is given, its
    /// phrases joined by spaces.
    TooManyArguments(String),
}

/// A command, with its path as a character sequence.
pub enum CommandView {
    DirAdd(Seq<char>),
    FileAdd(Seq<char>),
}

/// An error, with its text as a character sequence.
pub enum ConfigErrorView {
    UnknownCommand(Seq<char>),
    TooManyArguments(Seq<char>),
}

impl View for Command {
    type V = CommandView;

    open spec fn view(&self) -> CommandView {
        match self {
            Command::DirAdd(p) => CommandView::DirAdd(p@),
            Command::FileAdd(p) => CommandView::FileAdd(p@),
        }
    }
}

impl View for ConfigError {
    type V = ConfigErrorView;

    open spec fn view(&self) -> ConfigErrorView {
        match self {
            ConfigError::UnknownCommand(p) => ConfigErrorView::UnknownCommand(p@),
            ConfigError::TooManyArguments(l) => ConfigErrorView::TooManyArguments(l@),
        }
    }
}

/// The commands of a list of commands.
pub open spec fn commands_view(v: Seq<Command>) -> Seq<CommandView> {
    v.map_values(|c: Command| c@)
}

/// The error, if any.
pub open spec fn error_view(e: Option<ConfigError>) -> Option<ConfigErrorView> {
    match e {
        Some(e) => Some(e@),
        None => None,
    }
}

/// What one line of phrases says.
pub enum LineOutcome {
    /// A command with its one argument.
    Command(CommandView),
    /// A command followed by more than one argument.
    TooMany(CommandView),
    /// A first phrase that is no command.
    Unknown(Seq<char>),
    /// No phrase, or a command without its argument.
    Incomplete,
}

/// What the line of phrases `l` says.
pub open spec fn line_outcome(l: Seq<Seq<char>>) -> LineOutcome {
    if l.len() == 0 {
        LineOutcome::Incomplete
    } else if l[0] == "diradd"@ || l[0] == "fileadd"@ {
        if l.len() == 1 {
            LineOutcome::Incomplete
        } else {
            let c = if l[0] == "diradd"@ {
                CommandView::DirAdd(l[1])
            } else {
                CommandView::FileAdd(l[1])
            };
            if l.len() == 2 {
                LineOutcome::Command(c)
            } else {
                LineOutcome::TooMany(c)
            }
        }
    } else {
        LineOutcome::Unknown(l[0])
    }
}

/// The commands that the lines give, read in order up to the first line
/// that is not a plain command, and the error that this line is: a line
/// with too many arguments still gives its command before the error.
pub open spec fn interpret(lines: Seq<Seq<Seq<char>>>) -> (Seq<CommandView>, Option<ConfigErrorView>)
    decreases lines.len(),
{
    if lines.len() == 0 {
        (Seq::<CommandView>::empty(), None)
    } else {
        match line_outcome(lines[0]) {
            LineOutcome::Command(c) => {
                let rest = interpret(lines.drop_first());
                (seq![c] + rest.0, rest.1)
            },
            LineOutcome::TooMany(c) => (
                seq![c],
                Some(ConfigErrorView::TooManyArguments(join_with(lines[0], ' '))),
            ),
            LineOutcome::Unknown(p) => (
                Seq::<CommandView>::empty(),
                Some(ConfigErrorView::UnknownCommand(p)),
            ),
            LineOutcome::Incomplete => (Seq::<CommandView>::empty(), None),
        }
    }
}

/// A `diradd` line names a directory and a `fileadd` line a file, whatever
/// the spelling of the path: `diradd x` reads into `DirAdd(x)`, `fileadd x`
/// into `FileAdd(x)`, and with more arguments the same command comes before
/// the error; as the only line of a configuration, `diradd x` gives exactly
/// that command and no error.
pub proof fn law_command_kinds(x: Seq<char>, more: Seq<Seq<char>>)
    ensures
        line_outcome(seq!["diradd"@, x]) == LineOutcome::Command(CommandView::DirAdd(x)),
        line_outcome(seq!["fileadd"@, x]) == LineOutcome::Command(CommandView::FileAdd(x)),
        more.len() > 0 ==> line_outcome(seq!["diradd"@, x] + more) == LineOutcome::TooMany(
            CommandView::DirAdd(x),
        ),
        more.len() > 0 ==> line_outcome(seq!["fileadd"@, x] + more) == LineOutcome::TooMany(
            CommandView::FileAdd(x),
        ),
        interpret(seq![seq!["diradd"@, x]]) == (
            seq![CommandView::DirAdd(x)],
            Option::<ConfigErrorView>::None,
        ),
        interpret(seq![seq!["fileadd"@, x]]) == (
            seq![CommandView::FileAdd(x)],
            Option::<ConfigErrorView>::None,
        ),
{
    reveal_strlit("diradd");
    reveal_strlit("fileadd");
    assert("fileadd"@.len() == 7 && "diradd"@.len() == 6);
    assert("fileadd"@ != "diradd"@);
    let d = seq!["diradd"@, x];
    let f = seq!["fileadd"@, x];
    assert((d + more)[0] == "diradd"@ && (d + more)[1] == x);
    assert((f + more)[0] == "fileadd"@ && (f + more)[1] == x);
    assert(line_outcome(d) == LineOutcome::Command(CommandView::DirAdd(x)));
    assert(line_outcome(f) == LineOutcome::Command(CommandView::FileAdd(x)));
    let one_d = seq![d];
    let one_f = seq![f];
    assert(interpret(Seq::<Seq<Seq<char>>>::empty()).0 == Seq::<CommandView>::empty());
    assert(one_d[0] == d && one_d.drop_first() == Seq::<Seq<Seq<char>>>::empty());
    assert(one_f[0] == f && one_f.drop_first() == Seq::<Seq<Seq<char>>>::empty());
    assert(seq![CommandView::DirAdd(x)] + Seq::<CommandView>::empty() == seq![
        CommandView::DirAdd(x),
    ]);
    assert(seq![CommandView::FileAdd(x)] + Seq::<CommandView>::empty() == seq![
        CommandView::FileAdd(x),
    ]);
}

/// The index of the first line that is not a plain command (the number of
/// lines where there is none).
pub open spec fn stop_index(lines: Seq<Seq<Seq<char>>>) -> nat
    decreases lines.len(),
{
    if lines.len() == 0 {
        0
    } else {
        match line_outcome(lines[0]) {
            LineOutcome::Command(_) => 1 + stop_index(lines.drop_first()),
            _ => 0,
        }
    }
}

/// Whether reading the lines stops at an incomplete line.
pub open spec fn stops_incomplete(lines: Seq<Seq<Seq<char>>>) -> bool {
    stop_index(lines) < lines.len() && line_outcome(lines[stop_index(lines) as int])
        is Incomplete
}

proof fn lemma_stop_index(lines: Seq<Seq<Seq<char>>>)
    ensures
        stop_index(lines) <= lines.len(),
        forall|k: int| 0 <= k < stop_index(lines) ==> #[trigger] line_outcome(lines[k]) is Command,
        stop_index(lines) < lines.len() ==> !(line_outcome(lines[stop_index(lines) as int]) is Command),
    decreases lines.len(),
{
    if lines.len() > 0 {
        lemma_stop_index(lines.drop_first());
        if line_outcome(lines[0]) is Command {
            assert forall|k: int| 0 <= k < stop_index(lines) implies #[trigger] line_outcome(
                lines[k],
            ) is Command by {
                if k > 0 {
                    assert(lines[k] == lines.drop_first()[k - 1]);
                }
            }
        }
    }
}

/// The phrases of a list of strings as character sequences.
fn phrase_chars(l: &Vec<String>) -> (r: Vec<Vec<char>>)
    ensures
        seqs_of(r@) == line_view(l@),
{
    let mut r: Vec<Vec<char>> = Vec::new();
    for i in 0..l.len()
        invariant
            seqs_of(r@) == line_view(l@).take(i as int),
    {
        let ghost before = seqs_of(r@);
        let c = chars_of(l[i].as_str());
        r.push(c);
        assert(seqs_of(r@) == before.push(l@[i as int]@));
        assert(line_view(l@).take(i + 1) == line_view(l@).take(i as int).push(l@[i as int]@));
    }
    assert(line_view(l@).take(l.len() as int) == line_view(l@));
    r
}

/// What the line of phrases `l` says, the command built where there is one.
fn read_line(l: &Vec<String>) -> (r: (Option<Command>, bool))
    ensures
        match line_outcome(line_view(l@)) {
            LineOutcome::Command(c) => r.0 matches Some(d) && d@ == c && !r.1,
            LineOutcome::TooMany(c) => r.0 matches Some(d) && d@ == c && r.1,
            _ => r.0 is None,
        },
{
    if l.len() == 0 {
        return (None, false);
    }
    let diradd = String::from_str("diradd");
    let fileadd = String::from_str("fileadd");
    let first = &l[0];
    assert(line_view(l@)[0] == first@);
    let is_dir = *first == diradd;
    let is_file = *first == fileadd;
    if !is_dir && !is_file {
        return (None, false);
    }
    if l.len() < 2 {
        return (None, false);
    }
    assert(line_view(l@)[1] == l@[1]@);
    let arg = l[1].clone();
    let cmd = if is_dir {
        Command::DirAdd(arg)
    } else {
        Command::FileAdd(arg)
    };
    (Some(cmd), l.len() > 2)
}

/// The index of the line at which reading the commands would stop on a
/// command without its argument (or on a line without phrases), if it would.
pub fn missing_argument_line(lines: &Vec<Vec<String>>) -> (r: Option<usize>)
    ensures
        r is Some <==> stops_incomplete(lines_view(lines@)),
        r matches Some(k) ==> k == stop_index(lines_view(lines@)),
{
    let ghost ls = lines_view(lines@);
    proof {
        lemma_stop_index(ls);
    }
    for i in 0..lines.len()
        invariant
            ls == lines_view(lines@),
            ls.len() == lines@.len(),
            stop_index(ls) <= ls.len(),
            forall|k: int| 0 <= k < stop_index(ls) ==> #[trigger] line_outcome(ls[k]) is Command,
            stop_index(ls) < ls.len() ==> !(line_outcome(ls[stop_index(ls) as int]) is Command),
            i <= stop_index(ls),
    {
        assert(ls[i as int] == line_view(lines@[i as int]@));
        let (cmd, too_many) = read_line(&lines[i]);
        match cmd {
            None => {
                if lines[i].len() == 0 {
                    return Some(i);
                }
                let diradd = String::from_str("diradd");
                let fileadd = String::from_str("fileadd");
                let first = &lines[i][0];
                assert(ls[i as int][0] == first@);
                if *first == diradd || *first == fileadd {
                    return Some(i);
                }
                return None;
            },
            Some(_) => {
                if too_many {
                    return None;
                }
            },
        }
    }
    None
}

/// The commands of the lines, read in order until the first line that is
/// not a plain command, and the error that stopped the reading, if any.
/// A line with too many arguments gives its command before its error.
/// The reading must not stop at a line without its argument (see
/// `missing_argument_line`).
pub fn parse_commands(lines: &Vec<Vec<String>>) -> (r: (Vec<Command>, Option<ConfigError>))
    requires
        !stops_incomplete(lines_view(lines@)),
    ensures
        (commands_view(r.0@), error_view(r.1)) == interpret(lines_view(lines@)),
{
    let ghost ls = lines_view(lines@);
    let mut commands: Vec<Command> = Vec::new();
    proof {
        lemma_stop_index(ls);
        assert(ls.skip(0) == ls);
    }
    for i in 0..lines.len()
        invariant
            ls == lines_view(lines@),
            ls.len() == lines@.len(),
            stop_index(ls) <= ls.len(),
            forall|k: int| 0 <= k < stop_index(ls) ==> #[trigger] line_outcome(ls[k]) is Command,
            stop_index(ls) < ls.len() ==> !(line_outcome(ls[stop_index(ls) as int]) is Command),
            !stops_incomplete(ls),
            i <= stop_index(ls),
            commands_view(commands@) + interpret(ls.skip(i as int)).0 == interpret(ls).0,
            interpret(ls.skip(i as int)).1 == interpret(ls).1,
    {
        let ghost rest = ls.skip(i as int);
        proof {
            assert(rest[0] == ls[i as int]);
            assert(rest.drop_first() == ls.skip(i + 1));
            assert(ls[i as int] == line_view(lines@[i as int]@));
        }
        let ghost before = commands_view(commands@);
        let (cmd, too_many) = read_line(&lines[i]);
        match cmd {
            None => {
                let l = &lines[i];
                assert(i == stop_index(ls));
                assert(l.len() > 0);
                assert(line_view(l@)[0] == l@[0]@);
                let phrase = l[0].clone();
                proof {
                    assert(interpret(rest).0 == Seq::<CommandView>::empty());
                    assert(before + Seq::<CommandView>::empty() == before);
                }
                return (commands, Some(ConfigError::UnknownCommand(phrase)));
            },
            Some(c) => {
                let ghost cv = c@;
                commands.push(c);
                proof {
                    assert(commands_view(commands@) == before.push(cv));
                    assert(before.push(cv) + interpret(rest).0.drop_first() == before + interpret(
                        rest,
                    ).0);
                }
                if too_many {
                    let joined = join_phrases(&lines[i]);
                    proof {
                        assert(interpret(rest).0 == seq![cv]);
                        assert(before.push(cv) == before + seq![cv]);
                    }
                    return (commands, Some(ConfigError::TooManyArguments(joined)));
                }
            },
        }
    }
    proof {
        assert(ls.skip(ls.len() as int) == Seq::<Seq<Seq<char>>>::empty());
        assert(commands_view(commands@) + Seq::<CommandView>::empty() == commands_view(commands@));
    }
    (commands, None)
}

/// The phrases of a line joined with spaces.
fn join_phrases(l: &Vec<String>) -> (r: String)
    ensures
        r@ == join_with(line_view(l@), ' '),
{
    let chars = phrase_chars(l);
    let joined = join_chars(&chars, ' ');
    string_of(&joined)
}

/// The configuration written where none exists yet: a comment that says how
/// to add directories and files, a blank line, and an example for each.
pub fn default_config() -> (r: String)
    ensures
        r@ == default_text(),
{
    String::from_str(
        "# An example config file. Add directories with `diradd`, or files with `fileadd`.

diradd ~/.config/gtk-2.0/ # Gtk theme
diradd ~/.config/gtk-3.0/
diradd ~/.config/i3/ # i3wm config
fileadd ~/.config/picom/picom.conf # Picom config
diradd ~/.config/polybar/ # Polybar config",
    )
}

/// Whether the first component of the path `p` is `~`: `p` is `~` or
/// starts with `~/`.
pub open spec fn has_tilde_head(p: Seq<char>) -> bool {
    p == seq!['~'] || (p.len() >= 2 && p[0] == '~' && p[1] == '/')
}

/// Whether a piece between `/` separators names a component: it is neither
/// empty nor `.`.
pub open spec fn is_component(seg: Seq<char>) -> bool {
    seg.len() != 0 && seg != seq!['.']
}

/// The pieces after those at the front that name no component.
pub open spec fn trim_front(segs: Seq<Seq<char>>) -> Seq<Seq<char>>
    decreases segs.len(),
{
    if segs.len() > 0 && !is_component(segs[0]) {
        trim_front(segs.drop_first())
    } else {
        segs
    }
}

/// The pieces before those at the back that name no component.
pub open spec fn trim_back(segs: Seq<Seq<char>>) -> Seq<Seq<char>>
    decreases segs.len(),
{
    if segs.len() > 0 && !is_component(segs.last()) {
        trim_back(segs.drop_last())
    } else {
        segs
    }
}

/// What follows the `~` of `p`, as `Path::strip_prefix` gives it: the rest
/// without the separators and `.` components at either end.
pub open spec fn tilde_rest(p: Seq<char>) -> Seq<char> {
    join_with(trim_back(trim_front(split_on(p.skip(1), '/'))), '/')
}

/// `base` with the relative path `rest` pushed on, as `PathBuf::push` does
/// it: a `/` goes between them unless `base` is empty or ends with one.
pub open spec fn push_path(base: Seq<char>, rest: Seq<char>) -> Seq<char> {
    if base.len() > 0 && base.last() != '/' {
        base.push('/') + rest
    } else {
        base + rest
    }
}

/// The path `p` with its leading `~` replaced by `home`.
pub open spec fn expand_tilde(p: Seq<char>, home: Seq<char>) -> Seq<char> {
    push_path(home, tilde_rest(p))
}

/// A path `~/r`, where every piece of `r` between separators names a
/// component, becomes `home/r` (for a `home` that does not end with `/`);
/// the path `~` alone becomes the home directory with a `/` pushed on.
pub proof fn law_expand_tilde(r: Seq<char>, home: Seq<char>)
    requires
        home.len() > 0,
        home.last() != '/',
    ensures
        (forall|k: int|
            0 <= k < split_on(r, '/').len() ==> is_component(#[trigger] split_on(r, '/')[k]))
            ==> expand_tilde(seq!['~', '/'] + r, home) == home + seq!['/'] + r,
        expand_tilde(seq!['~'], home) == home.push('/'),
{
    let p = seq!['~', '/'] + r;
    let e = Seq::<char>::empty();
    assert(p.skip(1) == e + seq!['/'] + r);
    lemma_split_on_concat(e, r, '/');
    lemma_split_on_shape(r, '/');
    let sr = split_on(r, '/');
    let segs = split_on(p.skip(1), '/');
    assert(split_on(e, '/') == seq![e]);
    assert(segs == seq![e] + sr);
    assert(segs.drop_first() == sr);
    if forall|k: int| 0 <= k < sr.len() ==> is_component(#[trigger] sr[k]) {
        assert(trim_front(segs) == trim_front(sr));
        assert(trim_front(sr) == sr);
        assert(sr.last() == sr[sr.len() - 1]);
        assert(trim_back(sr) == sr);
        lemma_join_split(r, '/');
        assert(home.push('/') + r == home + seq!['/'] + r);
    }
    let q = seq!['~'];
    assert(q.skip(1) == e);
    assert(trim_front(seq![e]) == trim_front(seq![e].drop_first()));
    assert(seq![e].drop_first() == Seq::<Seq<char>>::empty());
    assert(trim_back(Seq::<Seq<char>>::empty()) == Seq::<Seq<char>>::empty());
    assert(home.push('/') + e == home.push('/'));
}

/// Whether the first component of `path` is `~`.
pub fn has_tilde_prefix(path: &str) -> (r: bool)
    ensures
        r == has_tilde_head(path@),
{
    let c = chars_of(path);
    if c.len() == 1 {
        assert(c@[0] == '~' ==> c@ == seq!['~']);
        c[0] == '~'
    } else if c.len() >= 2 {
        c[0] == '~' && c[1] == '/'
    } else {
        false
    }
}

proof fn lemma_trim_front_skip(segs: Seq<Seq<char>>, lo: int)
    requires
        0 <= lo <= segs.len(),
        forall|k: int| 0 <= k < lo ==> !is_component(#[trigger] segs[k]),
    ensures
        trim_front(segs) == trim_front(segs.skip(lo)),
    decreases lo,
{
    if lo > 0 {
        let t = segs.drop_first();
        assert forall|k: int| 0 <= k < lo - 1 implies !is_component(#[trigger] t[k]) by {
            assert(t[k] == segs[k + 1]);
        }
        lemma_trim_front_skip(t, lo - 1);
        assert(t.skip(lo - 1) == segs.skip(lo));
    } else {
        assert(segs.skip(0) == segs);
    }
}

proof fn lemma_trim_back_take(segs: Seq<Seq<char>>, hi: int)
    requires
        0 <= hi <= segs.len(),
        forall|k: int| hi <= k < segs.len() ==> !is_component(#[trigger] segs[k]),
    ensures
        trim_back(segs) == trim_back(segs.take(hi)),
    decreases segs.len() - hi,
{
    if hi < segs.len() {
        let t = segs.drop_last();
        assert forall|k: int| hi <= k < t.len() implies !is_component(#[trigger] t[k]) by {
            assert(t[k] == segs[k]);
        }
        assert(!is_component(segs[segs.len() - 1]));
        lemma_trim_back_take(t, hi);
        assert(t.take(hi) == segs.take(hi));
    } else {
        assert(segs.take(hi) == segs);
    }
}

/// Whether the piece `v` names a component.
fn names_component(v: &Vec<char>) -> (r: bool)
    ensures
        r == is_component(v@),
{
    if v.len() == 0 {
        false
    } else if v.len() == 1 && v[0] == '.' {
        assert(v@ == seq!['.']);
        false
    } else {
        assert(v@.len() == 1 ==> v@[0] != '.');
        true
    }
}

/// The path `path`, whose first component is `~`, with that component
/// replaced by the directory `replace`: what follows the `~`, without the
/// separators and `.` components at either end, pushed onto `replace` as a
/// relative path, with a `/` between them unless `replace` is empty or
/// ends with one.
pub fn replacetilde(path: String, replace: &str) -> (r: String)
    requires
        has_tilde_head(path@),
    ensures
        r@ == expand_tilde(path@, replace@),
{
    let chars = chars_of(path.as_str());
    let mut after: Vec<char> = Vec::new();
    for i in 1..chars.len()
        invariant
            chars@ == path@,
            chars@.len() >= 1,
            after@ == chars@.subrange(1, i as int),
    {
        after.push(chars[i]);
        assert(chars@.subrange(1, i + 1) == chars@.subrange(1, i as int).push(chars@[i as int]));
    }
    assert(after@ == path@.skip(1));
    let segs = split_chars(&after, '/');
    let ghost ss = seqs_of(segs@);
    let mut lo: usize = 0;
    while lo < segs.len() && !names_component(&segs[lo])
        invariant
            ss == seqs_of(segs@),
            ss.len() == segs@.len(),
            lo <= segs.len(),
            forall|k: int| 0 <= k < lo ==> !is_component(#[trigger] ss[k]),
        decreases segs.len() - lo,
    {
        assert(ss[lo as int] == segs@[lo as int]@);
        lo = lo + 1;
    }
    proof {
        if lo < segs.len() {
            assert(ss[lo as int] == segs@[lo as int]@);
        }
        lemma_trim_front_skip(ss, lo as int);
        if lo < ss.len() {
            assert(ss.skip(lo as int)[0] == ss[lo as int]);
        } else {
            assert(ss.skip(lo as int) == Seq::<Seq<char>>::empty());
        }
        assert(trim_front(ss) == ss.skip(lo as int));
    }
    let mut hi: usize = segs.len();
    while hi > lo && !names_component(&segs[hi - 1])
        invariant
            ss == seqs_of(segs@),
            ss.len() == segs@.len(),
            lo <= hi <= segs.len(),
            forall|k: int| hi <= k < ss.len() ==> !is_component(#[trigger] ss[k]),
        decreases hi,
    {
        assert(ss[hi - 1] == segs@[hi - 1]@);
        hi = hi - 1;
    }
    let mut kept: Vec<Vec<char>> = Vec::new();
    for k in lo..hi
        invariant
            ss == seqs_of(segs@),
            lo <= hi <= segs.len(),
            seqs_of(kept@) == ss.subrange(lo as int, k as int),
    {
        let ghost before = seqs_of(kept@);
        kept.push(segs[k].clone());
        proof {
            assert(seqs_of(kept@) == before.push(ss[k as int]));
            assert(ss.subrange(lo as int, k + 1) == ss.subrange(lo as int, k as int).push(
                ss[k as int],
            ));
        }
    }
    proof {
        let t = ss.skip(lo as int);
        let h = (hi - lo) as int;
        assert forall|k: int| h <= k < t.len() implies !is_component(#[trigger] t[k]) by {
            assert(t[k] == ss[k + lo]);
        }
        lemma_trim_back_take(t, h);
        if hi > lo {
            assert(ss[hi - 1] == segs@[hi - 1]@);
            assert(t.take(h).last() == ss[hi - 1]);
        } else {
            assert(t.take(h) == Seq::<Seq<char>>::empty());
        }
        assert(trim_back(t.take(h)) == t.take(h));
        assert(t.take(h) == ss.subrange(lo as int, hi as int));
    }
    let rest = join_chars(&kept, '/');
    let home = chars_of(replace);
    let mut out = home;
    if out.len() > 0 && out[out.len() - 1] != '/' {
        out.push('/');
    }
    let ghost base = out@;
    for k in 0..rest.len()
        invariant
            out@ == base + rest@.take(k as int),
    {
        out.push(rest[k]);
        assert(rest@.take(k + 1) == rest@.take(k as int).push(rest@[k as int]));
    }
    assert(rest@.take(rest.len() as int) == rest@);
    string_of(&out)
}

/// The name that stands for the root of an absolute path among the
/// components of a path (no other component holds a `/`).
pub open spec fn root_name() -> Seq<char> {
    seq!['/']
}

/// Whether `p` is absolute: it starts with `/`.
pub open spec fn has_root(p: Seq<char>) -> bool {
    p.len() > 0 && p[0] == '/'
}

/// Whether the relative path `p` starts with the component `.`: it is `.`
/// or starts with `./`.
pub open spec fn has_cur_dir(p: Seq<char>) -> bool {
    !has_root(p) && split_on(p, '/')[0] == seq!['.']
}

/// The pieces from index `k` on that name components, each with its index.
pub open spec fn named_from(segs: Seq<Seq<char>>, k: int) -> Seq<(Seq<char>, int)>
    decreases segs.len() - k,
{
    if k < 0 || k >= segs.len() {
        Seq::<(Seq<char>, int)>::empty()
    } else if is_component(segs[k]) {
        seq![(segs[k], k)] + named_from(segs, k + 1)
    } else {
        named_from(segs, k + 1)
    }
}

/// The components of the path `p`, as `Path::components` gives them, each
/// with the index of the piece between separators that holds it: the root
/// of an absolute path, a leading `.`, then every piece that is neither
/// empty nor `.`.
pub open spec fn components(p: Seq<char>) -> Seq<(Seq<char>, int)> {
    let segs = split_on(p, '/');
    if has_root(p) {
        seq![(root_name(), 0int)] + named_from(segs, 1)
    } else if has_cur_dir(p) {
        seq![(seq!['.'], 0int)] + named_from(segs, 1)
    } else {
        named_from(segs, 0)
    }
}

/// The names of a list of components.
pub open spec fn names(c: Seq<(Seq<char>, int)>) -> Seq<Seq<char>> {
    c.map_values(|x: (Seq<char>, int)| x.0)
}

/// Whether the components of `base` begin those of `p`, so that
/// `Path::strip_prefix` succeeds.
pub open spec fn strips(p: Seq<char>, base: Seq<char>) -> bool {
    let n = components(base).len();
    n <= components(p).len() && names(components(p)).take(n as int) == names(components(base))
}

/// The whole path `p` without the separators and `.` pieces at its end,
/// its root or leading `.` kept.
pub open spec fn unstripped(p: Seq<char>) -> Seq<char> {
    let segs = split_on(p, '/');
    if has_root(p) {
        seq!['/'] + join_with(trim_back(segs.skip(1)), '/')
    } else if has_cur_dir(p) {
        if trim_back(segs.skip(1)).len() == 0 {
            seq!['.']
        } else {
            seq!['.', '/'] + join_with(trim_back(segs.skip(1)), '/')
        }
    } else {
        join_with(trim_back(segs), '/')
    }
}

/// What `Path::strip_prefix(base)` leaves of `p`: what follows the last
/// component matched by `base`, without the separators and `.` pieces at
/// either end (all of `p`, trimmed at its end, where `base` has no
/// components).
pub open spec fn strip_rest(p: Seq<char>, base: Seq<char>) -> Seq<char> {
    let n = components(base).len();
    if n == 0 {
        unstripped(p)
    } else {
        let j = components(p)[n - 1].1;
        join_with(trim_back(trim_front(split_on(p, '/').skip(j + 1))), '/')
    }
}

/// `dir` joined with `rest`, as `Path::join` does it: an absolute `rest`
/// replaces `dir`; a relative one is pushed onto it.
pub open spec fn join_path(dir: Seq<char>, rest: Seq<char>) -> Seq<char> {
    if has_root(rest) {
        rest
    } else {
        push_path(dir, rest)
    }
}

/// Where the file `file` under the directory `home` goes under `dir`.
pub open spec fn relocate(file: Seq<char>, home: Seq<char>, dir: Seq<char>) -> Seq<char> {
    join_path(dir, strip_rest(file, home))
}

/// The pieces from index `from` on, without those at the back that name no
/// component, and (where `front`) without those at the front either.
fn trimmed(segs: &Vec<Vec<char>>, from: usize, front: bool) -> (r: Vec<Vec<char>>)
    requires
        from <= segs@.len(),
    ensures
        seqs_of(r@) == (if front {
            trim_back(trim_front(seqs_of(segs@).skip(from as int)))
        } else {
            trim_back(seqs_of(segs@).skip(from as int))
        }),
{
    let ghost ss = seqs_of(segs@);
    let mut lo: usize = from;
    if front {
        while lo < segs.len() && !names_component(&segs[lo])
            invariant
                ss == seqs_of(segs@),
                ss.len() == segs@.len(),
                from <= lo <= segs.len(),
                forall|k: int| from <= k < lo ==> !is_component(#[trigger] ss[k]),
            decreases segs.len() - lo,
        {
            assert(ss[lo as int] == segs@[lo as int]@);
            lo = lo + 1;
        }
        proof {
            let t = ss.skip(from as int);
            assert forall|k: int| 0 <= k < lo - from implies !is_component(#[trigger] t[k]) by {
                assert(t[k] == ss[k + from]);
            }
            lemma_trim_front_skip(t, lo - from);
            assert(t.skip(lo - from) == ss.skip(lo as int));
            if lo < segs.len() {
                assert(ss[lo as int] == segs@[lo as int]@);
                assert(ss.skip(lo as int)[0] == ss[lo as int]);
            } else {
                assert(ss.skip(lo as int) == Seq::<Seq<char>>::empty());
            }
            assert(trim_front(t) == ss.skip(lo as int));
        }
    } else {
        assert(ss.skip(from as int) == ss.skip(lo as int));
    }
    let ghost mid = ss.skip(lo as int);
    let mut hi: usize = segs.len();
    while hi > lo && !names_component(&segs[hi - 1])
        invariant
            ss == seqs_of(segs@),
            ss.len() == segs@.len(),
            lo <= hi <= segs.len(),
            forall|k: int| hi <= k < ss.len() ==> !is_component(#[trigger] ss[k]),
        decreases hi,
    {
        assert(ss[hi - 1] == segs@[hi - 1]@);
        hi = hi - 1;
    }
    let mut kept: Vec<Vec<char>> = Vec::new();
    for k in lo..hi
        invariant
            ss == seqs_of(segs@),
            lo <= hi <= segs.len(),
            seqs_of(kept@) == ss.subrange(lo as int, k as int),
    {
        let ghost before = seqs_of(kept@);
        kept.push(segs[k].clone());
        proof {
            assert(seqs_of(kept@) == before.push(ss[k as int]));
            assert(ss.subrange(lo as int, k + 1) == ss.subrange(lo as int, k as int).push(
                ss[k as int],
            ));
        }
    }
    proof {
        let h = (hi - lo) as int;
        assert forall|k: int| h <= k < mid.len() implies !is_component(#[trigger] mid[k]) by {
            assert(mid[k] == ss[k + lo]);
        }
        lemma_trim_back_take(mid, h);
        if hi > lo {
            assert(ss[hi - 1] == segs@[hi - 1]@);
            assert(mid.take(h).last() == ss[hi - 1]);
        } else {
            assert(mid.take(h) == Seq::<Seq<char>>::empty());
        }
        assert(trim_back(mid.take(h)) == mid.take(h));
        assert(mid.take(h) == ss.subrange(lo as int, hi as int));
    }
    kept
}

/// The components of a list of components with their piece indices.
pub open spec fn comps_view(v: Seq<(Vec<char>, usize)>) -> Seq<(Seq<char>, int)> {
    v.map_values(|x: (Vec<char>, usize)| (x.0@, x.1 as int))
}

proof fn lemma_named_from_bounds(segs: Seq<Seq<char>>, k: int)
    requires
        0 <= k,
    ensures
        forall|i: int|
            0 <= i < named_from(segs, k).len() ==> k <= (#[trigger] named_from(segs, k)[i]).1
                < segs.len(),
    decreases segs.len() - k,
{
    if k < segs.len() {
        lemma_named_from_bounds(segs, k + 1);
        let r = named_from(segs, k);
        let t = named_from(segs, k + 1);
        if is_component(segs[k]) {
            assert forall|i: int| 0 <= i < r.len() implies k <= (#[trigger] r[i]).1 < segs.len() by {
                if i > 0 {
                    assert(r[i] == t[i - 1]);
                }
            }
        }
    }
}

/// Every component's piece index lies within the pieces of the path.
proof fn lemma_components_bounds(p: Seq<char>)
    ensures
        forall|i: int|
            0 <= i < components(p).len() ==> 0 <= (#[trigger] components(p)[i]).1 < split_on(
                p,
                '/',
            ).len(),
{
    let segs = split_on(p, '/');
    lemma_split_on_shape(p, '/');
    lemma_named_from_bounds(segs, 0);
    lemma_named_from_bounds(segs, 1);
    let c = components(p);
    if has_root(p) || has_cur_dir(p) {
        let head = if has_root(p) {
            seq![(root_name(), 0int)]
        } else {
            seq![(seq!['.'], 0int)]
        };
        assert(c == head + named_from(segs, 1));
        assert forall|i: int| 0 <= i < c.len() implies 0 <= (#[trigger] c[i]).1 < segs.len() by {
            if i > 0 {
                assert(c[i] == named_from(segs, 1)[i - 1]);
            }
        }
    }
}

/// The components of the path `p`, each with its piece index.
fn components_of(p: &Vec<char>) -> (r: Vec<(Vec<char>, usize)>)
    ensures
        comps_view(r@) == components(p@),
{
    let segs = split_chars(p, '/');
    let ghost ss = seqs_of(segs@);
    proof {
        lemma_split_on_shape(p@, '/');
    }
    assert(ss[0] == segs@[0]@);
    let mut out: Vec<(Vec<char>, usize)> = Vec::new();
    let root = p.len() > 0 && p[0] == '/';
    let cur = !root && segs[0].len() == 1 && segs[0][0] == '.';
    assert(cur == has_cur_dir(p@)) by {
        if !root && ss[0] == seq!['.'] {
            assert(ss[0][0] == '.');
        }
        if cur {
            assert(ss[0] == seq!['.']);
        }
    }
    let start: usize = if root || cur {
        1
    } else {
        0
    };
    if root || cur {
        let mut name: Vec<char> = Vec::new();
        name.push(if root {
            '/'
        } else {
            '.'
        });
        out.push((name, 0));
    }
    let ghost head = comps_view(out@);
    assert(components(p@) == head + named_from(ss, start as int));
    for k in start..segs.len()
        invariant
            ss == seqs_of(segs@),
            ss.len() == segs@.len(),
            comps_view(out@) + named_from(ss, k as int) == components(p@),
    {
        let ghost before = comps_view(out@);
        assert(ss[k as int] == segs@[k as int]@);
        if names_component(&segs[k]) {
            let piece = segs[k].clone();
            out.push((piece, k));
            assert(comps_view(out@) == before.push((ss[k as int], k as int)));
            assert(before.push((ss[k as int], k as int)) + named_from(ss, k + 1) == before + (seq![
                (ss[k as int], k as int),
            ] + named_from(ss, k + 1)));
        }
    }
    assert(named_from(ss, segs.len() as int) == Seq::<(Seq<char>, int)>::empty());
    assert(comps_view(out@) + Seq::<(Seq<char>, int)>::empty() == comps_view(out@));
    out
}

/// Whether two character sequences are equal.
fn same_chars(a: &Vec<char>, b: &Vec<char>) -> (r: bool)
    ensures
        r == (a@ == b@),
{
    if a.len() != b.len() {
        return false;
    }
    for i in 0..a.len()
        invariant
            a@.len() == b@.len(),
            forall|k: int| 0 <= k < i ==> a@[k] == b@[k],
    {
        if a[i] != b[i] {
            return false;
        }
    }
    assert(a@ == b@);
    true
}

/// Whether the components of `home` begin those of `file`, so that the
/// file can be placed relative to it.
pub fn strips_home(file: &str, home: &str) -> (r: bool)
    ensures
        r == strips(file@, home@),
{
    let fchars = chars_of(file);
    let hchars = chars_of(home);
    let fc = components_of(&fchars);
    let hc = components_of(&hchars);
    let ghost fv = comps_view(fc@);
    let ghost hv = comps_view(hc@);
    assert(fv == components(file@));
    assert(hv == components(home@));
    let n = hc.len();
    if n > fc.len() {
        return false;
    }
    for i in 0..n
        invariant
            fv == comps_view(fc@),
            hv == comps_view(hc@),
            fv == components(file@),
            hv == components(home@),
            n == hc@.len(),
            n <= fc@.len(),
            forall|k: int| 0 <= k < i ==> fv[k].0 == hv[k].0,
    {
        assert(fv[i as int].0 == fc@[i as int].0@);
        assert(hv[i as int].0 == hc@[i as int].0@);
        if !same_chars(&fc[i].0, &hc[i].0) {
            proof {
                let a = names(fv).take(n as int);
                let b = names(hv);
                assert(a[i as int] == fv[i as int].0);
                assert(b[i as int] == hv[i as int].0);
                assert(a != b);
            }
            return false;
        }
    }
    assert(names(fv).take(n as int) == names(hv));
    true
}

/// Appends the characters of `b` to `a`.
fn append_chars(a: &mut Vec<char>, b: &Vec<char>)
    ensures
        final(a)@ == old(a)@ + b@,
{
    for k in 0..b.len()
        invariant
            a@ == old(a)@ + b@.take(k as int),
    {
        a.push(b[k]);
        assert(b@.take(k + 1) == b@.take(k as int).push(b@[k as int]));
    }
    assert(b@.take(b.len() as int) == b@);
}

/// Where the file `file`, under the directory `home`, goes under `dir`:
/// what `Path::strip_prefix(home)` leaves of `file` (what follows the
/// components of `home`, without separators and `.` pieces at either end),
/// joined onto `dir` as `Path::join` joins it. The components of `home`
/// must begin those of `file` (see `strips_home`).
pub fn home_relative(file: &str, home: &str, dir: &str) -> (r: String)
    requires
        strips(file@, home@),
    ensures
        r@ == relocate(file@, home@, dir@),
{
    let f = chars_of(file);
    let fc = components_of(&f);
    let hc = components_of(&chars_of(home));
    let segs = split_chars(&f, '/');
    let ghost ss = seqs_of(segs@);
    proof {
        lemma_split_on_shape(f@, '/');
        lemma_components_bounds(f@);
    }
    let n = hc.len();
    let mut rest: Vec<char> = Vec::new();
    if n == 0 {
        assert(ss[0] == segs@[0]@);
        if f.len() > 0 && f[0] == '/' {
            rest.push('/');
            let t = trimmed(&segs, 1, false);
            let joined = join_chars(&t, '/');
            append_chars(&mut rest, &joined);
        } else if segs[0].len() == 1 && segs[0][0] == '.' {
            assert(ss[0] == seq!['.']);
            let t = trimmed(&segs, 1, false);
            rest.push('.');
            if t.len() > 0 {
                rest.push('/');
                let joined = join_chars(&t, '/');
                append_chars(&mut rest, &joined);
                assert(seq!['.'].push('/') == seq!['.', '/']);
            } else {
                assert(seqs_of(t@).len() == 0);
            }
        } else {
            assert(!has_cur_dir(f@)) by {
                if ss[0] == seq!['.'] {
                    assert(ss[0][0] == '.');
                }
            }
            assert(ss.skip(0) == ss);
            let t = trimmed(&segs, 0, false);
            rest = join_chars(&t, '/');
        }
    } else {
        assert(comps_view(fc@) == components(file@));
        assert(comps_view(hc@) == components(home@));
        assert(n <= fc@.len());
        assert(comps_view(fc@)[n - 1] == (fc@[n - 1].0@, fc@[n - 1].1 as int));
        assert(f@ == file@);
        assert(0 <= components(f@)[n - 1].1 < ss.len());
        let j = fc[n - 1].1;
        assert(j as int == components(f@)[n - 1].1);
        assert(j < segs.len());
        let t = trimmed(&segs, j + 1, true);
        rest = join_chars(&t, '/');
    }
    assert(rest@ == strip_rest(f@, home@));
    let d = chars_of(dir);
    let mut out: Vec<char> = Vec::new();
    if rest.len() > 0 && rest[0] == '/' {
        out = rest;
    } else {
        append_chars(&mut out, &d);
        if d.len() > 0 && d[d.len() - 1] != '/' {
            out.push('/');
        }
        append_chars(&mut out, &rest);
    }
    string_of(&out)
}

/// Components with their piece indices moved on by `d`.
pub open spec fn shift_comps(c: Seq<(Seq<char>, int)>, d: int) -> Seq<(Seq<char>, int)> {
    c.map_values(|x: (Seq<char>, int)| (x.0, x.1 + d))
}

proof fn lemma_named_from_shift(x: Seq<Seq<char>>, y: Seq<Seq<char>>, m: int)
    requires
        0 <= m <= y.len(),
    ensures
        named_from(x + y, x.len() + m) == shift_comps(named_from(y, m), x.len() as int),
    decreases y.len() - m,
{
    let d = x.len() as int;
    if m < y.len() {
        lemma_named_from_shift(x, y, m + 1);
        assert((x + y)[x.len() + m] == y[m]);
        let t = named_from(y, m + 1);
        if is_component(y[m]) {
            assert(shift_comps(seq![(y[m], m)] + t, d) == seq![(y[m], m + d)] + shift_comps(t, d));
        }
    } else {
        assert(shift_comps(Seq::<(Seq<char>, int)>::empty(), d) == Seq::<(Seq<char>, int)>::empty());
    }
}

proof fn lemma_named_from_concat(x: Seq<Seq<char>>, y: Seq<Seq<char>>, k: int)
    requires
        0 <= k <= x.len(),
    ensures
        named_from(x + y, k) == named_from(x, k) + shift_comps(named_from(y, 0), x.len() as int),
    decreases x.len() - k,
{
    let sh = shift_comps(named_from(y, 0), x.len() as int);
    if k == x.len() {
        lemma_named_from_shift(x, y, 0);
        assert(named_from(x, k) == Seq::<(Seq<char>, int)>::empty());
        assert(Seq::<(Seq<char>, int)>::empty() + sh == sh);
    } else {
        lemma_named_from_concat(x, y, k + 1);
        assert((x + y)[k] == x[k]);
        if is_component(x[k]) {
            assert(seq![(x[k], k)] + (named_from(x, k + 1) + sh) == (seq![(x[k], k)] + named_from(
                x,
                k + 1,
            )) + sh);
        }
    }
}

proof fn lemma_named_from_after_last(segs: Seq<Seq<char>>, k: int)
    requires
        0 <= k,
    ensures
        named_from(segs, k).len() == 0 ==> forall|m: int|
            k <= m < segs.len() ==> !is_component(#[trigger] segs[m]),
        named_from(segs, k).len() > 0 ==> {
            &&& k <= named_from(segs, k).last().1 < segs.len()
            &&& forall|m: int|
                named_from(segs, k).last().1 < m < segs.len() ==> !is_component(#[trigger] segs[m])
        },
    decreases segs.len() - k,
{
    if k < segs.len() {
        lemma_named_from_after_last(segs, k + 1);
        let t = named_from(segs, k + 1);
        if is_component(segs[k]) && t.len() > 0 {
            assert((seq![(segs[k], k)] + t).last() == t.last());
        }
    }
}

proof fn lemma_trim_front_suffix(segs: Seq<Seq<char>>)
    ensures
        trim_front(segs).len() <= segs.len(),
        trim_front(segs) == segs.skip(segs.len() - trim_front(segs).len()),
        trim_front(segs).len() > 0 ==> is_component(trim_front(segs)[0]),
    decreases segs.len(),
{
    if segs.len() > 0 && !is_component(segs[0]) {
        lemma_trim_front_suffix(segs.drop_first());
        let t = trim_front(segs.drop_first());
        assert(segs.drop_first().skip(segs.drop_first().len() - t.len()) == segs.skip(
            segs.len() - t.len(),
        ));
    } else {
        assert(segs.skip(0) == segs);
    }
}

proof fn lemma_trim_back_prefix(segs: Seq<Seq<char>>)
    ensures
        trim_back(segs).len() <= segs.len(),
        trim_back(segs) == segs.take(trim_back(segs).len() as int),
        trim_back(segs).len() > 0 ==> is_component(trim_back(segs).last()),
    decreases segs.len(),
{
    if segs.len() > 0 && !is_component(segs.last()) {
        lemma_trim_back_prefix(segs.drop_last());
        let t = trim_back(segs.drop_last());
        assert(segs.drop_last().take(t.len() as int) == segs.take(t.len() as int));
    } else {
        assert(segs.take(segs.len() as int) == segs);
    }
}

/// Pieces that start and end with components are left as they are by the
/// trimming at either end.
proof fn lemma_trim_fixed(r: Seq<Seq<char>>)
    requires
        r.len() == 0 || (is_component(r[0]) && is_component(r.last())),
    ensures
        trim_front(r) == r,
        trim_back(r) == r,
{
}

/// The relative path joined from pieces that start and end with
/// components (or from none): its split gives the pieces back (one empty
/// piece for none), it has neither root nor leading `.`, and trimming its
/// split gives the pieces.
proof fn lemma_joined_rest(rs: Seq<Seq<char>>)
    requires
        forall|i: int| 0 <= i < rs.len() ==> !(#[trigger] rs[i]).contains('/'),
        rs.len() == 0 || (is_component(rs[0]) && is_component(rs.last())),
    ensures
        trim_back(trim_front(split_on(join_with(rs, '/'), '/'))) == rs,
        trim_back(split_on(join_with(rs, '/'), '/')) == rs,
        !has_root(join_with(rs, '/')),
        !has_cur_dir(join_with(rs, '/')),
{
    let r = join_with(rs, '/');
    let y = split_on(r, '/');
    let e = Seq::<char>::empty();
    let none = Seq::<Seq<char>>::empty();
    lemma_trim_fixed(rs);
    if rs.len() > 0 {
        lemma_split_join(rs, '/');
        lemma_split_on_first(r, '/');
        assert(y[0] == rs[0]);
        if has_root(r) {
            assert(y[0] == r.take(y[0].len() as int));
            assert(rs[0][0] == r[0]);
            assert(rs[0].contains('/'));
        }
    } else {
        assert(r == e);
        assert(y == seq![e]);
        let one = seq![e];
        assert(one[0] == e && !is_component(e));
        assert(one.drop_first() == none);
        assert(one.last() == e);
        assert(one.drop_last() == none);
        assert(trim_front(one) == trim_front(none));
        assert(trim_back(one) == trim_back(none));
    }
}

/// The path `h` without one `/` at its end.
pub open spec fn home_base(h: Seq<char>) -> Seq<char> {
    if h.len() > 0 && h.last() == '/' {
        h.drop_last()
    } else {
        h
    }
}

/// The first piece index after the head (root or leading `.`) of `p`.
pub open spec fn body_start(p: Seq<char>) -> int {
    if has_root(p) || has_cur_dir(p) {
        1
    } else {
        0
    }
}

/// The head component of `p`, if any.
pub open spec fn head_of(p: Seq<char>) -> Seq<(Seq<char>, int)> {
    if has_root(p) {
        seq![(root_name(), 0int)]
    } else if has_cur_dir(p) {
        seq![(seq!['.'], 0int)]
    } else {
        none_comps()
    }
}

/// How a nonempty `h` and the path pushed onto it split.
#[verifier::spinoff_prover]
proof fn lemma_push_split(h: Seq<char>, r: Seq<char>)
    requires
        h.len() > 0,
    ensures
        push_path(h, r) == home_base(h) + seq!['/'] + r,
        split_on(push_path(h, r), '/') == split_on(home_base(h), '/') + split_on(r, '/'),
        split_on(h, '/') == (if h.last() == '/' {
            split_on(home_base(h), '/') + seq![Seq::<char>::empty()]
        } else {
            split_on(home_base(h), '/')
        }),
        has_root(push_path(h, r)) == has_root(h),
        has_cur_dir(push_path(h, r)) == has_cur_dir(h),
        components(h) == head_of(h) + named_from(split_on(h, '/'), body_start(h)),
        components(push_path(h, r)) == head_of(h) + named_from(
            split_on(home_base(h), '/') + split_on(r, '/'),
            body_start(h),
        ),
{
    let hh = home_base(h);
    let slash = seq!['/'];
    let e = Seq::<char>::empty();
    let full = hh + slash + r;
    if h.last() == '/' {
        assert(hh.push('/') == h);
        assert(h + r == full);
        lemma_split_on_concat(hh, e, '/');
        assert(hh + slash + e == h);
        assert(split_on(e, '/') == seq![e]);
    } else {
        assert(h.push('/') + r == full);
    }
    let x = split_on(hh, '/');
    lemma_split_on_shape(hh, '/');
    lemma_split_on_concat(hh, r, '/');
    assert(full[0] == h[0]) by {
        if hh.len() > 0 {
            assert(full[0] == hh[0]);
            assert(hh[0] == h[0]);
        }
    }
    assert((x + split_on(r, '/'))[0] == x[0]);
    if h.last() == '/' {
        assert((x + seq![e])[0] == x[0]);
    }
}

/// The components of a path pushed onto a nonempty `h` are those of `h`
/// followed by those of the pushed path; the last of those of `h` lies in
/// the pieces of `home_base(h)`, and no later piece of it names anything.
#[verifier::spinoff_prover]
proof fn lemma_push_components(h: Seq<char>, r: Seq<char>)
    requires
        h.len() > 0,
    ensures
        components(push_path(h, r)) == components(h) + shift_comps(
            named_from(split_on(r, '/'), 0),
            split_on(home_base(h), '/').len() as int,
        ),
        components(h).len() >= 1,
        0 <= components(h).last().1 < split_on(home_base(h), '/').len(),
        forall|m: int|
            components(h).last().1 < m < split_on(home_base(h), '/').len() ==> !is_component(
                #[trigger] split_on(home_base(h), '/')[m],
            ),
{
    lemma_push_split(h, r);
    let x = split_on(home_base(h), '/');
    let y = split_on(r, '/');
    let e = Seq::<char>::empty();
    let start = body_start(h);
    let head = head_of(h);
    lemma_split_on_shape(home_base(h), '/');
    lemma_named_from_concat(x, y, start);
    let nx = named_from(x, start);
    let tail = shift_comps(named_from(y, 0), x.len() as int);
    assert(head + (nx + tail) == (head + nx) + tail);
    if h.last() == '/' {
        lemma_named_from_concat(x, seq![e], start);
        assert(named_from(seq![e], 0) == named_from(seq![e], 1));
        assert(shift_comps(none_comps(), x.len() as int) == none_comps());
        assert(nx + none_comps() == nx);
    }
    assert(components(h) == head + nx);
    lemma_named_from_after_last(x, start);
    if head.len() == 0 {
        let hh = home_base(h);
        assert(hh.len() > 0 && hh[0] == h[0]) by {
            if h.last() == '/' {
                assert(h.len() != 1);
            }
        }
        lemma_split_on_first_char(hh, '/');
        assert(x[0] != seq!['.']) by {
            if x[0] == seq!['.'] {
                assert(split_on(h, '/')[0] == x[0]);
            }
        }
        assert(is_component(x[0]));
        assert(nx.len() > 0);
    }
    let ch = head + nx;
    if nx.len() > 0 {
        assert(ch.last() == nx.last());
    } else {
        assert(ch.last() == head[0]);
    }
}

/// A path pushed onto `h` has the components of `h` first, and stripping
/// `h` off gives it back, for a relative path made of pieces that start and
/// end with components (or the empty path).
#[verifier::spinoff_prover]
proof fn lemma_strip_pushed(h: Seq<char>, rs: Seq<Seq<char>>)
    requires
        forall|i: int| 0 <= i < rs.len() ==> !(#[trigger] rs[i]).contains('/'),
        rs.len() == 0 || (is_component(rs[0]) && is_component(rs.last())),
    ensures
        strips(push_path(h, join_with(rs, '/')), h),
        strip_rest(push_path(h, join_with(rs, '/')), h) == join_with(rs, '/'),
{
    let r = join_with(rs, '/');
    let y = split_on(r, '/');
    let e = Seq::<char>::empty();
    lemma_joined_rest(rs);
    if h.len() == 0 {
        assert(push_path(h, r) == r);
        assert(split_on(e, '/') == seq![e]);
        assert(named_from(seq![e], 0) == named_from(seq![e], 1));
        assert(components(h).len() == 0);
        assert(names(components(r)).take(0) == names(components(h)));
    } else {
        lemma_push_components(h, r);
        lemma_push_split(h, r);
        let full = push_path(h, r);
        let x = split_on(home_base(h), '/');
        let ch = components(h);
        let n = ch.len();
        let tail = shift_comps(named_from(y, 0), x.len() as int);
        assert(components(full) == ch + tail);
        assert(names(components(full)).take(n as int) == names(ch));
        assert(components(full)[n - 1] == ch.last());
        let j = ch.last().1;
        let rest = (x + y).skip(j + 1);
        let lo = x.len() - j - 1;
        assert forall|k: int| 0 <= k < lo implies !is_component(#[trigger] rest[k]) by {
            assert(rest[k] == x[k + j + 1]);
        }
        lemma_trim_front_skip(rest, lo);
        assert(rest.skip(lo) == y);
    }
}

/// No components at all.
pub open spec fn none_comps() -> Seq<(Seq<char>, int)> {
    Seq::<(Seq<char>, int)>::empty()
}

/// The path that replaces `~` keeps its place: stripping the home
/// directory off the path that `replacetilde` gives (as `strip_prefix`
/// does) succeeds and gives back what followed the `~`.
pub proof fn law_strip_home_after_tilde(p: Seq<char>, home: Seq<char>)
    requires
        has_tilde_head(p),
    ensures
        strips(expand_tilde(p, home), home),
        strip_rest(expand_tilde(p, home), home) == tilde_rest(p),
{
    let segs = split_on(p.skip(1), '/');
    lemma_split_on_shape(p.skip(1), '/');
    let f = trim_front(segs);
    lemma_trim_front_suffix(segs);
    let rs = trim_back(f);
    lemma_trim_back_prefix(f);
    assert forall|i: int| 0 <= i < rs.len() implies !(#[trigger] rs[i]).contains('/') by {
        assert(rs[i] == f[i]);
        assert(f[i] == segs[i + segs.len() - f.len()]);
        if rs[i].contains('/') {
            let k = choose|k: int| 0 <= k < rs[i].len() && rs[i][k] == '/';
            assert(segs[i + segs.len() - f.len()][k] == '/');
        }
    }
    if rs.len() > 0 {
        assert(rs[0] == f[0]);
    }
    lemma_strip_pushed(home, rs);
}

/// What follows the `~` of a path is what stripping the component `~` off
/// it (as `strip_prefix("~")` does) leaves.
pub proof fn law_tilde_rest_is_strip(p: Seq<char>)
    requires
        has_tilde_head(p),
    ensures
        strips(p, seq!['~']),
        strip_rest(p, seq!['~']) == tilde_rest(p),
{
    let t = seq!['~'];
    let e = Seq::<char>::empty();
    let none = Seq::<Seq<char>>::empty();
    lemma_split_on_none(t, '/');
    assert(split_on(t, '/') == seq![t]);
    assert(!is_component(e));
    assert(t != seq!['.']);
    assert(named_from(seq![t], 1) == none_comps());
    assert(components(t) == seq![(t, 0int)]);
    let rest = p.skip(1);
    if p == t {
        assert(rest == e);
        assert(split_on(p, '/').skip(1) == none);
        assert(split_on(rest, '/') == seq![e]);
        assert(seq![e].drop_first() == none);
        assert(trim_front(seq![e]) == trim_front(none));
        assert(named_from(seq![t], 0) == seq![(t, 0int)] + named_from(seq![t], 1));
    } else {
        let after = p.skip(2);
        assert(p == t + seq!['/'] + after);
        lemma_split_on_concat(t, after, '/');
        assert(rest == e + seq!['/'] + after);
        lemma_split_on_concat(e, after, '/');
        assert(split_on(e, '/') == seq![e]);
        let sa = split_on(after, '/');
        assert(split_on(p, '/') == seq![t] + sa);
        assert(split_on(rest, '/') == seq![e] + sa);
        assert((seq![e] + sa).drop_first() == sa);
        assert(trim_front(seq![e] + sa) == trim_front(sa));
        assert((seq![t] + sa).skip(1) == sa);
        assert(!has_root(p));
        assert(split_on(p, '/')[0] == t);
        assert(named_from(seq![t] + sa, 0) == seq![(t, 0int)] + named_from(seq![t] + sa, 1));
    }
    assert(names(components(p)).take(1) == names(components(t)));
}

proof fn lemma_plain_words(a: Seq<char>, b: Seq<char>)
    requires
        a.len() > 0,
        a[0] != '#',
        !a.contains(' '),
        b.len() > 0,
        b[0] != '#',
        !b.contains(' '),
    ensures
        phrases_of(a + seq![' '] + b) == seq![a, b],
{
    lemma_split_on_concat(a, b, ' ');
    lemma_split_on_none(a, ' ');
    lemma_split_on_none(b, ' ');
    let ps = seq![a] + seq![b];
    assert(ps == seq![a, b]);
    assert(ps.drop_first() == seq![b]);
    assert(seq![b].drop_first() == Seq::<Seq<char>>::empty());
    assert(split_on(a + seq![' '] + b, ' ') == ps);
    assert(!starts_comment(a) && !starts_comment(b));
    assert(before_comment(Seq::<Seq<char>>::empty()) == Seq::<Seq<char>>::empty());
    assert(before_comment(seq![b]) == seq![b] + before_comment(Seq::<Seq<char>>::empty()));
    assert(before_comment(ps) == seq![a] + before_comment(seq![b]));
}

proof fn lemma_commented_words(a: Seq<char>, b: Seq<char>, c: Seq<char>)
    requires
        a.len() > 0,
        a[0] != '#',
        !a.contains(' '),
        b.len() > 0,
        b[0] != '#',
        !b.contains(' '),
        c.len() > 0,
        c[0] == '#',
    ensures
        phrases_of(a + seq![' '] + b + seq![' '] + c) == seq![a, b],
{
    let ab = a + seq![' '] + b;
    lemma_split_on_concat(ab, c, ' ');
    lemma_split_on_concat(a, b, ' ');
    lemma_split_on_none(a, ' ');
    lemma_split_on_none(b, ' ');
    lemma_split_on_shape(c, ' ');
    lemma_split_on_first_char(c, ' ');
    lemma_before_comment_concat(split_on(ab, ' '), split_on(c, ' '));
    lemma_plain_words(a, b);
}

/// The configuration written where none exists.
pub open spec fn default_text() -> Seq<char> {
    "# An example config file. Add directories with `diradd`, or files with `fileadd`.

diradd ~/.config/gtk-2.0/ # Gtk theme
diradd ~/.config/gtk-3.0/
diradd ~/.config/i3/ # i3wm config
fileadd ~/.config/picom/picom.conf # Picom config
diradd ~/.config/polybar/ # Polybar config"@
}

/// The configuration written where none exists reads into its five
/// commands, four directories and one file, with no error.
pub proof fn law_default_config()
    ensures
        interpret(config_spec(default_text())) == (
            seq![
                CommandView::DirAdd("~/.config/gtk-2.0/"@),
                CommandView::DirAdd("~/.config/gtk-3.0/"@),
                CommandView::DirAdd("~/.config/i3/"@),
                CommandView::FileAdd("~/.config/picom/picom.conf"@),
                CommandView::DirAdd("~/.config/polybar/"@),
            ],
            Option::<ConfigErrorView>::None,
        ),
{
    reveal_strlit("# An example config file. Add directories with `diradd`, or files with `fileadd`.

diradd ~/.config/gtk-2.0/ # Gtk theme
diradd ~/.config/gtk-3.0/
diradd ~/.config/i3/ # i3wm config
fileadd ~/.config/picom/picom.conf # Picom config
diradd ~/.config/polybar/ # Polybar config");
    reveal_strlit("# An example config file. Add directories with `diradd`, or files with `fileadd`.");
    reveal_strlit("diradd ~/.config/gtk-2.0/ # Gtk theme");
    reveal_strlit("diradd ~/.config/gtk-3.0/");
    reveal_strlit("diradd ~/.config/i3/ # i3wm config");
    reveal_strlit("fileadd ~/.config/picom/picom.conf # Picom config");
    reveal_strlit("diradd ~/.config/polybar/ # Polybar config");
    reveal_strlit("# Gtk theme");
    reveal_strlit("# Picom config");
    reveal_strlit("# Polybar config");
    reveal_strlit("# i3wm config");
    reveal_strlit("diradd");
    reveal_strlit("fileadd");
    reveal_strlit("~/.config/gtk-2.0/");
    reveal_strlit("~/.config/gtk-3.0/");
    reveal_strlit("~/.config/i3/");
    reveal_strlit("~/.config/picom/picom.conf");
    reveal_strlit("~/.config/polybar/");
    let e = Seq::<char>::empty();
    let ls = seq![
        "# An example config file. Add directories with `diradd`, or files with `fileadd`."@,
        e,
        "diradd ~/.config/gtk-2.0/ # Gtk theme"@,
        "diradd ~/.config/gtk-3.0/"@,
        "diradd ~/.config/i3/ # i3wm config"@,
        "fileadd ~/.config/picom/picom.conf # Picom config"@,
        "diradd ~/.config/polybar/ # Polybar config"@,
    ];
    reveal_with_fuel(join_with, 8);
    assert(default_text() =~= join_with(ls, '\n'));
    assert forall|i: int| 0 <= i < ls.len() implies !(#[trigger] ls[i]).contains('\n') by {
        assert(!"# An example config file. Add directories with `diradd`, or files with `fileadd`."@.contains('\n'));
        assert(!"diradd ~/.config/gtk-2.0/ # Gtk theme"@.contains('\n'));
        assert(!"diradd ~/.config/gtk-3.0/"@.contains('\n'));
        assert(!"diradd ~/.config/i3/ # i3wm config"@.contains('\n'));
        assert(!"fileadd ~/.config/picom/picom.conf # Picom config"@.contains('\n'));
        assert(!"diradd ~/.config/polybar/ # Polybar config"@.contains('\n'));
        assert(!e.contains('\n'));
    }
    lemma_config_spec_join(ls);
    assert("diradd ~/.config/gtk-2.0/ # Gtk theme"@ =~= "diradd"@ + seq![' '] + "~/.config/gtk-2.0/"@ + seq![' '] + "# Gtk theme"@);
    lemma_commented_words("diradd"@, "~/.config/gtk-2.0/"@, "# Gtk theme"@);
    assert("diradd ~/.config/gtk-3.0/"@ =~= "diradd"@ + seq![' '] + "~/.config/gtk-3.0/"@);
    lemma_plain_words("diradd"@, "~/.config/gtk-3.0/"@);
    assert("diradd ~/.config/i3/ # i3wm config"@ =~= "diradd"@ + seq![' '] + "~/.config/i3/"@ + seq![' '] + "# i3wm config"@);
    lemma_commented_words("diradd"@, "~/.config/i3/"@, "# i3wm config"@);
    assert("fileadd ~/.config/picom/picom.conf # Picom config"@ =~= "fileadd"@ + seq![' '] + "~/.config/picom/picom.conf"@ + seq![' '] + "# Picom config"@);
    lemma_commented_words("fileadd"@, "~/.config/picom/picom.conf"@, "# Picom config"@);
    assert("diradd ~/.config/polybar/ # Polybar config"@ =~= "diradd"@ + seq![' '] + "~/.config/polybar/"@ + seq![' '] + "# Polybar config"@);
    lemma_commented_words("diradd"@, "~/.config/polybar/"@, "# Polybar config"@);
    reveal_with_fuel(lines_of, 8);
    let ps = seq![
        seq!["diradd"@, "~/.config/gtk-2.0/"@],
        seq!["diradd"@, "~/.config/gtk-3.0/"@],
        seq!["diradd"@, "~/.config/i3/"@],
        seq!["fileadd"@, "~/.config/picom/picom.conf"@],
        seq!["diradd"@, "~/.config/polybar/"@],
    ];
    assert(lines_of(ls) =~= ps);
    reveal_with_fuel(interpret, 6);
    assert("fileadd"@ != "diradd"@);
}

/// `strip_prefix` needs every component of the base, in order, at the
/// start of the path: the base strips the path exactly when it has no more
/// components and each of them equals the path's component at its index.
pub proof fn law_strips_every_component(p: Seq<char>, base: Seq<char>)
    ensures
        strips(p, base) <==> (components(base).len() <= components(p).len() && forall|k: int|
            0 <= k < components(base).len() ==> (#[trigger] components(p)[k]).0 == components(
                base,
            )[k].0),
{
    let n = components(base).len();
    let np = names(components(p));
    let nb = names(components(base));
    if n <= components(p).len() {
        if np.take(n as int) == nb {
            assert forall|k: int| 0 <= k < n implies (#[trigger] components(p)[k]).0 == components(
                base,
            )[k].0 by {
                assert(np.take(n as int)[k] == np[k]);
            }
        }
        if forall|k: int| 0 <= k < n ==> (#[trigger] components(p)[k]).0 == components(base)[k].0 {
            assert(np.take(n as int) =~= nb);
        }
    }
}

proof fn lemma_components_two(a: Seq<char>, u: Seq<char>)
    requires
        is_component(a),
        is_component(u),
        !a.contains('/'),
        !u.contains('/'),
    ensures
        components(seq!['/'] + a + seq!['/'] + u) == seq![
            (root_name(), 0int),
            (a, 1int),
            (u, 2int),
        ],
{
    let e = Seq::<char>::empty();
    let slash = seq!['/'];
    let p = slash + a + slash + u;
    assert(p == e + slash + (a + slash + u));
    lemma_split_on_concat(e, a + slash + u, '/');
    lemma_split_on_concat(a, u, '/');
    lemma_split_on_none(a, '/');
    lemma_split_on_none(u, '/');
    assert(split_on(e, '/') == seq![e]);
    let segs = seq![e] + (seq![a] + seq![u]);
    assert(segs == seq![e, a, u]);
    assert(split_on(p, '/') == seq![e, a, u]);
    assert(has_root(p));
    let ss = seq![e, a, u];
    assert(named_from(ss, 3) == none_comps());
    assert(named_from(ss, 2) == seq![(u, 2int)] + named_from(ss, 3));
    assert(named_from(ss, 1) == seq![(a, 1int)] + named_from(ss, 2));
}

/// A file under another directory of the same name is not under the home:
/// for directory names `a` and `b` that differ, `/a/u` does not strip
/// `/b/u`, though its root and its last component match; `/b/u` strips
/// itself.
pub proof fn law_strips_needs_whole_prefix(a: Seq<char>, b: Seq<char>, u: Seq<char>)
    requires
        is_component(a),
        is_component(b),
        is_component(u),
        !a.contains('/'),
        !b.contains('/'),
        !u.contains('/'),
        a != b,
    ensures
        !strips(seq!['/'] + a + seq!['/'] + u, seq!['/'] + b + seq!['/'] + u),
        strips(seq!['/'] + b + seq!['/'] + u, seq!['/'] + b + seq!['/'] + u),
{
    let pa = seq!['/'] + a + seq!['/'] + u;
    let pb = seq!['/'] + b + seq!['/'] + u;
    lemma_components_two(a, u);
    lemma_components_two(b, u);
    law_strips_every_component(pa, pb);
    law_strips_every_component(pb, pb);
    assert(components(pa)[1].0 == a);
    assert(components(pb)[1].0 == b);
}

} // verus!
