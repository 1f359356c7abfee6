//! The lexer of the configuration language: string literals with `\`
//! escapes, `#` comments, newlines, and an error token for each other
//! character that is not a space.

use vstd::prelude::*;
use vstd::utf8::*;

use crate::text::chars_of;

verus! {

broadcast use vstd::utf8::char_is_scalar;

/// A token of the configuration language.
#[derive(Debug)]
pub enum Token {
    /// The contents of a `"..."` literal, escapes resolved.
    StringLit(String),
    /// The text after a `#`, up to the end of the line.
    Comment(String),
    /// The byte offset in the input of a character that starts no token.
    Error(usize),
    /// A line break outside literals and comments.
    Newline,
}

/// What a token stands for, with its text as a character sequence.
pub enum Lexeme {
    StringLit(Seq<char>),
    Comment(Seq<char>),
    Error(nat),
    Newline,
}

impl View for Token {
    type V = Lexeme;

    open spec fn view(&self) -> Lexeme {
        match self {
            Token::StringLit(s) => Lexeme::StringLit(s@),
            Token::Comment(s) => Lexeme::Comment(s@),
            Token::Error(i) => Lexeme::Error(*i as nat),
            Token::Newline => Lexeme::Newline,
        }
    }
}

/// The lexemes of a list of tokens.
pub open spec fn lexemes_of(tokens: Seq<Token>) -> Seq<Lexeme> {
    tokens.map_values(|t: Token| t@)
}

/// The character that `\` followed by `c` stands for in a literal.
pub open spec fn unescape(c: char) -> char {
    if c == 'n' {
        '\n'
    } else {
        c
    }
}

/// Reads the body of a string literal from the start of `t` (just after the
/// opening quote): the characters it stands for, and how many characters of
/// `t` it takes, the closing quote included. An unterminated literal runs to
/// the end of `t`.
pub open spec fn scan_string(t: Seq<char>) -> (Seq<char>, nat)
    decreases t.len(),
{
    if t.len() == 0 {
        (Seq::<char>::empty(), 0)
    } else if t[0] == '"' {
        (Seq::<char>::empty(), 1)
    } else if t[0] == '\\' {
        if t.len() == 1 {
            (Seq::<char>::empty(), 1)
        } else {
            let rest = scan_string(t.skip(2));
            (seq![unescape(t[1])] + rest.0, rest.1 + 2)
        }
    } else {
        let rest = scan_string(t.drop_first());
        (seq![t[0]] + rest.0, rest.1 + 1)
    }
}

/// Reads the body of a comment from the start of `t` (just after the `#`):
/// its text, and how many characters of `t` it takes, the line break that
/// ends it included.
pub open spec fn scan_comment(t: Seq<char>) -> (Seq<char>, nat)
    decreases t.len(),
{
    if t.len() == 0 {
        (Seq::<char>::empty(), 0)
    } else if t[0] == '\n' {
        (Seq::<char>::empty(), 1)
    } else {
        let rest = scan_comment(t.drop_first());
        (seq![t[0]] + rest.0, rest.1 + 1)
    }
}

/// A literal body never takes more than it is given.
pub proof fn lemma_scan_string_len(t: Seq<char>)
    ensures
        scan_string(t).1 <= t.len(),
    decreases t.len(),
{
    if t.len() > 0 && t[0] != '"' {
        if t[0] == '\\' {
            if t.len() > 1 {
                lemma_scan_string_len(t.skip(2));
            }
        } else {
            lemma_scan_string_len(t.drop_first());
        }
    }
}

/// A comment body never takes more than it is given.
pub proof fn lemma_scan_comment_len(t: Seq<char>)
    ensures
        scan_comment(t).1 <= t.len(),
    decreases t.len(),
{
    if t.len() > 0 && t[0] != '\n' {
        lemma_scan_comment_len(t.drop_first());
    }
}

/// The byte offset of the character at index `i` of `s` in its UTF-8 form.
pub open spec fn byte_offset(s: Seq<char>, i: int) -> nat {
    encode_utf8(s.take(i)).len()
}

/// The lexemes of `s` from index `i` on.
pub open spec fn lex_from(s: Seq<char>, i: int) -> Seq<Lexeme>
    decreases s.len() - i,
{
    if i < 0 || i >= s.len() {
        Seq::<Lexeme>::empty()
    } else if s[i] == '"' {
        let r = scan_string(s.skip(i + 1));
        proof {
            lemma_scan_string_len(s.skip(i + 1));
        }
        seq![Lexeme::StringLit(r.0)] + lex_from(s, i + 1 + r.1)
    } else if s[i] == '#' {
        let r = scan_comment(s.skip(i + 1));
        proof {
            lemma_scan_comment_len(s.skip(i + 1));
        }
        seq![Lexeme::Comment(r.0)] + lex_from(s, i + 1 + r.1)
    } else if s[i] == '\n' {
        seq![Lexeme::Newline] + lex_from(s, i + 1)
    } else if s[i] == ' ' {
        lex_from(s, i + 1)
    } else {
        seq![Lexeme::Error(byte_offset(s, i))] + lex_from(s, i + 1)
    }
}

/// The lexemes of the whole of `s`.
pub open spec fn lex_spec(s: Seq<char>) -> Seq<Lexeme> {
    lex_from(s, 0)
}

/// How `c` is written inside a string literal so that it reads back as
/// itself: `\` and `"` behind a `\`, a line break as `\n`.
pub open spec fn escape_char(c: char) -> Seq<char> {
    if c == '\\' || c == '"' {
        seq!['\\', c]
    } else if c == '\n' {
        seq!['\\', 'n']
    } else {
        seq![c]
    }
}

/// The characters of `c`, each written as `escape_char` writes it.
pub open spec fn escape(c: Seq<char>) -> Seq<char>
    decreases c.len(),
{
    if c.len() == 0 {
        Seq::<char>::empty()
    } else {
        escape_char(c[0]) + escape(c.drop_first())
    }
}

/// A string literal whose contents read back as `c`.
pub open spec fn quote(c: Seq<char>) -> Seq<char> {
    seq!['"'] + escape(c) + seq!['"']
}

proof fn lemma_scan_escaped(c: Seq<char>, rest: Seq<char>)
    ensures
        scan_string(escape(c) + seq!['"'] + rest) == (c, escape(c).len() + 1),
    decreases c.len(),
{
    let t = escape(c) + seq!['"'] + rest;
    if c.len() == 0 {
        assert(escape(c) == Seq::<char>::empty());
        assert(t[0] == '"');
        assert(c == Seq::<char>::empty());
    } else {
        let tail = escape(c.drop_first()) + seq!['"'] + rest;
        lemma_scan_escaped(c.drop_first(), rest);
        let e = escape_char(c[0]);
        assert(t == e + tail);
        assert(c == seq![c[0]] + c.drop_first());
        if e.len() == 2 {
            assert(t.skip(2) == tail);
            assert(t[0] == '\\');
            assert(unescape(t[1]) == c[0]);
        } else {
            assert(t.drop_first() == tail);
            assert(t[0] == c[0]);
        }
    }
}

/// Writing any text as a string literal with `escape` and lexing it gives
/// back that text as the one token.
pub proof fn law_string_literal_roundtrip(c: Seq<char>)
    ensures
        lex_spec(quote(c)) == seq![Lexeme::StringLit(c)],
{
    let s = quote(c);
    lemma_scan_escaped(c, Seq::<char>::empty());
    assert(s.skip(1) == escape(c) + seq!['"'] + Seq::<char>::empty());
    assert(s[0] == '"');
    assert(lex_from(s, s.len() as int) == Seq::<Lexeme>::empty());
}

proof fn lemma_scan_comment_plain(c: Seq<char>, rest: Seq<char>)
    requires
        !c.contains('\n'),
    ensures
        scan_comment(c + rest).0 == c + scan_comment(rest).0,
        scan_comment(c + rest).1 == c.len() + scan_comment(rest).1,
    decreases c.len(),
{
    if c.len() == 0 {
        assert(c + rest == rest);
    } else {
        assert(!c.drop_first().contains('\n')) by {
            if c.drop_first().contains('\n') {
                let k = choose|k: int| 0 <= k < c.drop_first().len() && c.drop_first()[k] == '\n';
                assert(c[k + 1] == '\n');
            }
        }
        lemma_scan_comment_plain(c.drop_first(), rest);
        assert((c + rest).drop_first() == c.drop_first() + rest);
        assert(c[0] != '\n');
        assert(c == seq![c[0]] + c.drop_first());
    }
}

/// A `#` followed by text without a line break lexes to one comment token
/// holding that text, whether or not a line break ends it: the line break
/// that ends a comment belongs to the comment.
pub proof fn law_comment(c: Seq<char>)
    requires
        !c.contains('\n'),
    ensures
        lex_spec(seq!['#'] + c) == seq![Lexeme::Comment(c)],
        lex_spec(seq!['#'] + c + seq!['\n']) == seq![Lexeme::Comment(c)],
{
    let s1 = seq!['#'] + c;
    lemma_scan_comment_plain(c, Seq::<char>::empty());
    assert(s1.skip(1) == c + Seq::<char>::empty());
    assert(s1[0] == '#');
    assert(lex_from(s1, s1.len() as int) == Seq::<Lexeme>::empty());
    let s2 = seq!['#'] + c + seq!['\n'];
    lemma_scan_comment_plain(c, seq!['\n']);
    assert(s2.skip(1) == c + seq!['\n']);
    assert(s2[0] == '#');
    assert(seq!['\n'].drop_first() == Seq::<char>::empty());
    assert(c + Seq::<char>::empty() == c);
    assert(lex_from(s2, s2.len() as int) == Seq::<Lexeme>::empty());
}

/// The text of a comment never holds a line break.
pub proof fn lemma_comment_no_newline(t: Seq<char>)
    ensures
        !scan_comment(t).0.contains('\n'),
    decreases t.len(),
{
    if t.len() > 0 && t[0] != '\n' {
        lemma_comment_no_newline(t.drop_first());
        let r = scan_comment(t.drop_first()).0;
        if (seq![t[0]] + r).contains('\n') {
            let k = choose|k: int| 0 <= k < (seq![t[0]] + r).len() && (seq![t[0]] + r)[k] == '\n';
            assert(r[k - 1] == '\n');
        }
    }
}

/// Whether `c` starts no token and is no space.
pub open spec fn is_stray(c: char) -> bool {
    c != '"' && c != '#' && c != '\n' && c != ' '
}

/// Every error token from index `i` on gives the byte offset of a stray
/// character at or after `i`, and every comment token is free of line breaks.
pub proof fn lemma_lex_from_tokens(s: Seq<char>, i: int)
    ensures
        forall|k: int|
            0 <= k < lex_from(s, i).len() ==> match #[trigger] lex_from(s, i)[k] {
                Lexeme::Error(n) => exists|j: int|
                    i <= j < s.len() && is_stray(s[j]) && n == byte_offset(s, j),
                Lexeme::Comment(c) => !c.contains('\n'),
                _ => true,
            },
    decreases s.len() - i,
{
    let l = lex_from(s, i);
    if 0 <= i < s.len() {
        let next = if s[i] == '"' {
            lemma_scan_string_len(s.skip(i + 1));
            i + 1 + scan_string(s.skip(i + 1)).1
        } else if s[i] == '#' {
            lemma_scan_comment_len(s.skip(i + 1));
            lemma_comment_no_newline(s.skip(i + 1));
            i + 1 + scan_comment(s.skip(i + 1)).1
        } else {
            i + 1
        };
        lemma_lex_from_tokens(s, next);
        let r = lex_from(s, next);
        assert forall|k: int| 0 <= k < l.len() implies match #[trigger] l[k] {
            Lexeme::Error(n) => exists|j: int|
                i <= j < s.len() && is_stray(s[j]) && n == byte_offset(s, j),
            Lexeme::Comment(c) => !c.contains('\n'),
            _ => true,
        } by {
            if s[i] == ' ' {
                assert(l[k] == r[k]);
            } else if k == 0 {
                if is_stray(s[i]) {
                    assert(l[0] == Lexeme::Error(byte_offset(s, i)));
                }
            } else {
                assert(l[k] == r[k - 1]);
                match r[k - 1] {
                    Lexeme::Error(n) => {
                        let j = choose|j: int|
                            next <= j < s.len() && is_stray(s[j]) && n == byte_offset(s, j);
                    },
                    _ => {},
                }
            }
        }
    }
}

/// Every error token gives the byte offset, in the UTF-8 form of the input,
/// of a character that starts no token and is no space; no comment token
/// holds a line break.
pub proof fn law_lexed_tokens(s: Seq<char>)
    ensures
        forall|k: int|
            0 <= k < lex_spec(s).len() ==> match #[trigger] lex_spec(s)[k] {
                Lexeme::Error(n) => exists|j: int|
                    0 <= j < s.len() && is_stray(s[j]) && n == byte_offset(s, j),
                Lexeme::Comment(c) => !c.contains('\n'),
                _ => true,
            },
{
    lemma_lex_from_tokens(s, 0);
}

/// The lexemes with every error offset moved on by `d` bytes.
pub open spec fn shift_errors(ls: Seq<Lexeme>, d: nat) -> Seq<Lexeme> {
    ls.map_values(
        |t: Lexeme|
            match t {
                Lexeme::Error(n) => Lexeme::Error(n + d),
                other => other,
            },
    )
}

proof fn lemma_scan_comment_prefix(t: Seq<char>, u: Seq<char>)
    requires
        t.contains('\n'),
    ensures
        scan_comment(t + u) == scan_comment(t),
    decreases t.len(),
{
    assert((t + u)[0] == t[0]);
    if t[0] != '\n' {
        assert(t.drop_first().contains('\n')) by {
            let k = choose|k: int| 0 <= k < t.len() && t[k] == '\n';
            assert(t.drop_first()[k - 1] == '\n');
        }
        assert((t + u).drop_first() == t.drop_first() + u);
        lemma_scan_comment_prefix(t.drop_first(), u);
    }
}

proof fn lemma_byte_offset_concat(s1: Seq<char>, s2: Seq<char>, m: int)
    requires
        0 <= m <= s2.len(),
    ensures
        byte_offset(s1 + s2, s1.len() + m) == byte_offset(s1, s1.len() as int) + byte_offset(s2, m),
{
    assert((s1 + s2).take(s1.len() + m) == s1 + s2.take(m));
    assert(s1.take(s1.len() as int) == s1);
    lemma_encode_utf8_append(s1, s2.take(m));
}

proof fn lemma_lex_second_part(s1: Seq<char>, s2: Seq<char>, m: int)
    requires
        0 <= m <= s2.len(),
    ensures
        lex_from(s1 + s2, s1.len() + m) == shift_errors(
            lex_from(s2, m),
            byte_offset(s1, s1.len() as int),
        ),
    decreases s2.len() - m,
{
    let s = s1 + s2;
    let i = s1.len() + m;
    let d = byte_offset(s1, s1.len() as int);
    if m < s2.len() {
        assert(s[i] == s2[m]);
        assert(s.skip(i + 1) == s2.skip(m + 1));
        let next = if s2[m] == '"' {
            lemma_scan_string_len(s2.skip(m + 1));
            m + 1 + scan_string(s2.skip(m + 1)).1
        } else if s2[m] == '#' {
            lemma_scan_comment_len(s2.skip(m + 1));
            m + 1 + scan_comment(s2.skip(m + 1)).1
        } else {
            m + 1
        };
        lemma_lex_second_part(s1, s2, next);
        assert(s1.len() + next == i + (next - m));
        let r = lex_from(s2, next);
        if s2[m] != ' ' {
            let t = lex_from(s2, m)[0];
            if is_stray(s2[m]) {
                lemma_byte_offset_concat(s1, s2, m);
            }
            assert(lex_from(s2, m) == seq![t] + r);
            assert(shift_errors(seq![t] + r, d) == shift_errors(seq![t], d) + shift_errors(r, d));
        }
    } else {
        assert(lex_from(s2, m) == Seq::<Lexeme>::empty());
        assert(shift_errors(Seq::<Lexeme>::empty(), d) == Seq::<Lexeme>::empty());
    }
}

proof fn lemma_lex_first_part(s1: Seq<char>, s2: Seq<char>, i: int)
    requires
        0 <= i <= s1.len(),
        s1.len() > 0,
        s1.last() == '\n',
        !s1.contains('"'),
    ensures
        lex_from(s1 + s2, i) == lex_from(s1, i) + shift_errors(
            lex_spec(s2),
            byte_offset(s1, s1.len() as int),
        ),
    decreases s1.len() - i,
{
    let s = s1 + s2;
    let d = byte_offset(s1, s1.len() as int);
    if i == s1.len() {
        lemma_lex_second_part(s1, s2, 0);
        assert(lex_from(s1, i) == Seq::<Lexeme>::empty());
        assert(Seq::<Lexeme>::empty() + shift_errors(lex_spec(s2), d) == shift_errors(
            lex_spec(s2),
            d,
        ));
    } else {
        assert(s[i] == s1[i]);
        assert(s1[i] != '"');
        let next = if s1[i] == '#' {
            let t = s1.skip(i + 1);
            assert(s1[s1.len() - 1] == '\n');
            assert(t[t.len() - 1] == '\n');
            lemma_scan_comment_prefix(t, s2);
            assert(s.skip(i + 1) == t + s2);
            lemma_scan_comment_len(t);
            i + 1 + scan_comment(t).1
        } else {
            i + 1
        };
        lemma_lex_first_part(s1, s2, next);
        if is_stray(s1[i]) {
            assert(s.take(i) == s1.take(i));
        }
        let r = lex_from(s1, next);
        let sh = shift_errors(lex_spec(s2), d);
        if s1[i] != ' ' {
            let t = lex_from(s1, i)[0];
            assert(lex_from(s1, i) == seq![t] + r);
            assert(seq![t] + (r + sh) == seq![t] + r + sh);
        }
    }
}

/// A text that ends with a line break and holds no `"` is lexed apart from
/// what follows it: the tokens of the two parts follow each other, the
/// error offsets of the second moved on by the byte length of the first.
pub proof fn law_lex_concat(s1: Seq<char>, s2: Seq<char>)
    requires
        s1.len() > 0,
        s1.last() == '\n',
        !s1.contains('"'),
    ensures
        lex_spec(s1 + s2) == lex_spec(s1) + shift_errors(lex_spec(s2), encode_utf8(s1).len()),
{
    lemma_lex_first_part(s1, s2, 0);
    assert(s1.take(s1.len() as int) == s1);
}

/// A line break outside literals and comments is a `Newline` token of its
/// own: a string literal followed by a line break and more text lexes to the
/// literal, then `Newline`, then the tokens of the rest (their error
/// offsets moved on by the bytes before it); a line break at the start of a
/// text likewise.
pub proof fn law_newline_after_literal(c: Seq<char>, t: Seq<char>)
    ensures
        lex_spec(quote(c) + seq!['\n'] + t) == seq![Lexeme::StringLit(c), Lexeme::Newline]
            + shift_errors(lex_spec(t), encode_utf8(quote(c) + seq!['\n']).len()),
        lex_spec(seq!['\n'] + t) == seq![Lexeme::Newline] + shift_errors(lex_spec(t), 1),
{
    let q = quote(c);
    let nl = seq!['\n'];
    let s1 = q + nl;
    let s = s1 + t;
    assert(q + nl + t == s);
    lemma_scan_escaped(c, nl + t);
    assert(s.skip(1) == escape(c) + seq!['"'] + (nl + t));
    assert(s[0] == '"');
    let qn = q.len() as int;
    assert(qn == escape(c).len() + 2);
    assert(s[qn] == '\n');
    lemma_lex_second_part(s1, t, 0);
    assert(s1.take(s1.len() as int) == s1);
    assert(lex_from(s, qn) == seq![Lexeme::Newline] + lex_from(s, qn + 1));
    assert(lex_spec(s) == seq![Lexeme::StringLit(c)] + lex_from(s, qn));
    assert(seq![Lexeme::StringLit(c)] + (seq![Lexeme::Newline] + lex_from(s, qn + 1)) == seq![
        Lexeme::StringLit(c),
        Lexeme::Newline,
    ] + lex_from(s, qn + 1));
    // A line break first.
    let s2 = nl + t;
    lemma_lex_second_part(nl, t, 0);
    assert(nl.take(1) == nl);
    assert(nl.drop_first() == Seq::<char>::empty());
    assert(encode_utf8(Seq::<char>::empty()) == Seq::<u8>::empty());
    assert(encode_utf8(nl) == encode_scalar('\n' as u32) + encode_utf8(nl.drop_first()));
    assert(encode_utf8(nl).len() == 1);
    assert(s2[0] == '\n');
}

/// UTF-8 encoding distributes over concatenation.
pub proof fn lemma_encode_utf8_append(a: Seq<char>, b: Seq<char>)
    ensures
        encode_utf8(a + b) == encode_utf8(a) + encode_utf8(b),
    decreases a.len(),
{
    if a.len() > 0 {
        lemma_encode_utf8_append(a.drop_first(), b);
        assert((a + b).drop_first() == a.drop_first() + b);
    } else {
        assert(a + b == b);
    }
}

/// The byte offset grows by the width of each character passed.
pub proof fn lemma_byte_offset_step(s: Seq<char>, i: int)
    requires
        0 <= i < s.len(),
    ensures
        byte_offset(s, i + 1) == byte_offset(s, i) + encode_scalar(s[i] as u32).len(),
{
    lemma_encode_utf8_append(s.take(i), seq![s[i]]);
    assert(s.take(i + 1) == s.take(i) + seq![s[i]]);
    let one = seq![s[i]];
    assert(one.drop_first() == Seq::<char>::empty());
    assert(encode_utf8(Seq::<char>::empty()) == Seq::<u8>::empty());
    assert(encode_utf8(one) == encode_scalar(one[0] as u32) + encode_utf8(one.drop_first()));
    assert(encode_utf8(one) == encode_scalar(s[i] as u32));
}

/// Byte offsets never decrease along the sequence.
pub proof fn lemma_byte_offset_mono(s: Seq<char>, i: int, j: int)
    requires
        0 <= i <= j <= s.len(),
    ensures
        byte_offset(s, i) <= byte_offset(s, j),
    decreases j - i,
{
    if i < j {
        lemma_byte_offset_step(s, j - 1);
        lemma_byte_offset_mono(s, i, j - 1);
    }
}

/// The number of bytes that `c` takes in UTF-8.
fn utf8_width(c: char) -> (w: usize)
    ensures
        w == encode_scalar(c as u32).len(),
{
    let v = c as u32;
    if v <= 0x7F {
        1
    } else if v <= 0x7FF {
        2
    } else if v <= 0xFFFF {
        3
    } else {
        4
    }
}

/// The byte offset of index `to`, knowing that of index `from`.
fn advance_bytes(chars: &Vec<char>, from: usize, to: usize, b: usize) -> (r: usize)
    requires
        from <= to <= chars@.len(),
        b == byte_offset(chars@, from as int),
        byte_offset(chars@, chars@.len() as int) <= usize::MAX,
    ensures
        r == byte_offset(chars@, to as int),
{
    let mut k = from;
    let mut r = b;
    while k < to
        invariant
            from <= k <= to <= chars@.len(),
            r == byte_offset(chars@, k as int),
            byte_offset(chars@, chars@.len() as int) <= usize::MAX,
        decreases to - k,
    {
        proof {
            lemma_byte_offset_step(chars@, k as int);
            lemma_byte_offset_mono(chars@, k + 1, chars@.len() as int);
        }
        r = r + utf8_width(chars[k]);
        k = k + 1;
    }
    r
}

/// The lexer: the text it reads and the tokens it has found.
pub struct Lexer {
    pub tokens: Vec<Token>,
    pub input: String,
}

impl Lexer {
    /// The text that the lexer reads.
    pub open spec fn source(&self) -> Seq<char> {
        self.input@
    }

    /// The lexemes of the tokens found so far.
    pub open spec fn found(&self) -> Seq<Lexeme> {
        lexemes_of(self.tokens@)
    }

    /// A lexer for `input`, with no tokens found yet.
    pub fn new(input: String) -> (lexer: Lexer)
        ensures
            lexer.source() == input@,
            lexer.found().len() == 0,
    {
        Lexer { tokens: Vec::new(), input: input }
    }

    /// Reads the whole text into `tokens`, replacing what was there.
    pub fn lex(&mut self)
        ensures
            final(self).source() == old(self).source(),
            final(self).found() == lex_spec(old(self).source()),
    {
        let chars = chars_of(self.input.as_str());
        let ghost s = chars@;
        let bytes = self.input.as_str().as_bytes();
        let nbytes = bytes.len();
        proof {
            assert(s.take(s.len() as int) == s);
            assert(nbytes == byte_offset(s, s.len() as int));
        }
        let mut output: Vec<Token> = Vec::new();
        let mut i: usize = 0;
        let mut b: usize = 0;
        proof {
            assert(s.take(0) == Seq::<char>::empty());
            assert(lexemes_of(output@) == Seq::<Lexeme>::empty());
        }
        while i < chars.len()
            invariant
                s == chars@,
                s == self.input@,
                i <= s.len(),
                b == byte_offset(s, i as int),
                byte_offset(s, s.len() as int) <= usize::MAX,
                lexemes_of(output@) + lex_from(s, i as int) == lex_spec(s),
            decreases s.len() - i,
        {
            let ghost before = lexemes_of(output@);
            let c = chars[i];
            if c == '"' {
                let mut pos = i + 1;
                let tok = Lexer::process_string_lit(&chars, &mut pos);
                proof {
                    lemma_scan_string_len(s.skip(i + 1));
                }
                b = advance_bytes(&chars, i, pos, b);
                let ghost t = tok@;
                output.push(tok);
                proof {
                    assert(lexemes_of(output@) == before.push(t));
                    assert(lex_from(s, i as int) == seq![t] + lex_from(s, pos as int));
                    assert(before.push(t) + lex_from(s, pos as int) == before + (seq![t]
                        + lex_from(s, pos as int)));
                }
                i = pos;
            } else if c == '#' {
                let mut pos = i + 1;
                let tok = Lexer::process_comment(&chars, &mut pos);
                proof {
                    lemma_scan_comment_len(s.skip(i + 1));
                }
                b = advance_bytes(&chars, i, pos, b);
                let ghost t = tok@;
                output.push(tok);
                proof {
                    assert(lexemes_of(output@) == before.push(t));
                    assert(lex_from(s, i as int) == seq![t] + lex_from(s, pos as int));
                    assert(before.push(t) + lex_from(s, pos as int) == before + (seq![t]
                        + lex_from(s, pos as int)));
                }
                i = pos;
            } else if c == ' ' {
                b = advance_bytes(&chars, i, i + 1, b);
                i = i + 1;
            } else {
                let tok = if c == '\n' {
                    Token::Newline
                } else {
                    Token::Error(b)
                };
                let ghost t = tok@;
                output.push(tok);
                proof {
                    assert(lexemes_of(output@) == before.push(t));
                    assert(lex_from(s, i as int) == seq![t] + lex_from(s, i + 1));
                    assert(before.push(t) + lex_from(s, i + 1) == before + (seq![t] + lex_from(
                        s,
                        i + 1,
                    )));
                }
                b = advance_bytes(&chars, i, i + 1, b);
                i = i + 1;
            }
        }
        proof {
            assert(lex_from(s, i as int) == Seq::<Lexeme>::empty());
            assert(lexemes_of(output@) + Seq::<Lexeme>::empty() == lexemes_of(output@));
        }
        self.tokens = output;
    }

    /// Reads the body of a string literal from `*pos` (just after its
    /// opening quote) and leaves `*pos` just after it.
    pub fn process_string_lit(chars: &Vec<char>, pos: &mut usize) -> (tok: Token)
        requires
            *old(pos) <= chars@.len(),
        ensures
            tok@ == Lexeme::StringLit(scan_string(chars@.skip(*old(pos) as int)).0),
            *final(pos) == *old(pos) + scan_string(chars@.skip(*old(pos) as int)).1,
    {
        let ghost start = *pos as int;
        let ghost whole = scan_string(chars@.skip(start));
        let mut output: Vec<char> = Vec::new();
        loop
            invariant_except_break
                output@ + scan_string(chars@.skip(*pos as int)).0 == whole.0,
                *pos + scan_string(chars@.skip(*pos as int)).1 == start + whole.1,
            invariant
                start <= *pos <= chars@.len(),
            ensures
                output@ == whole.0,
                *pos == start + whole.1,
            decreases chars@.len() - *pos,
        {
            let ghost t = chars@.skip(*pos as int);
            let ghost before = output@;
            if *pos >= chars.len() {
                assert(output@ + Seq::<char>::empty() == output@);
                break;
            }
            let c = chars[*pos];
            if c == '"' {
                *pos = *pos + 1;
                assert(output@ + Seq::<char>::empty() == output@);
                break;
            } else if c == '\\' {
                *pos = *pos + 1;
                if *pos >= chars.len() {
                    assert(output@ + Seq::<char>::empty() == output@);
                    break;
                }
                let e = chars[*pos];
                *pos = *pos + 1;
                let d = if e == 'n' {
                    '\n'
                } else {
                    e
                };
                proof {
                    assert(t.skip(2) == chars@.skip(*pos as int));
                    assert(output@.push(d) + scan_string(t.skip(2)).0 == output@ + (seq![d]
                        + scan_string(t.skip(2)).0));
                }
                output.push(d);
            } else {
                *pos = *pos + 1;
                proof {
                    assert(t.drop_first() == chars@.skip(*pos as int));
                    assert(output@.push(c) + scan_string(t.drop_first()).0 == output@ + (seq![c]
                        + scan_string(t.drop_first()).0));
                }
                output.push(c);
            }
        }
        Token::StringLit(crate::text::string_of(&output))
    }

    /// Reads the body of a comment from `*pos` (just after its `#`) and
    /// leaves `*pos` just after the line break that ends it.
    pub fn process_comment(chars: &Vec<char>, pos: &mut usize) -> (tok: Token)
        requires
            *old(pos) <= chars@.len(),
        ensures
            tok@ == Lexeme::Comment(scan_comment(chars@.skip(*old(pos) as int)).0),
            *final(pos) == *old(pos) + scan_comment(chars@.skip(*old(pos) as int)).1,
    {
        let ghost start = *pos as int;
        let ghost whole = scan_comment(chars@.skip(start));
        let mut output: Vec<char> = Vec::new();
        loop
            invariant_except_break
                output@ + scan_comment(chars@.skip(*pos as int)).0 == whole.0,
                *pos + scan_comment(chars@.skip(*pos as int)).1 == start + whole.1,
            invariant
                start <= *pos <= chars@.len(),
            ensures
                output@ == whole.0,
                *pos == start + whole.1,
            decreases chars@.len() - *pos,
        {
            let ghost t = chars@.skip(*pos as int);
            let ghost before = output@;
            if *pos >= chars.len() {
                assert(output@ + Seq::<char>::empty() == output@);
                break;
            }
            let c = chars[*pos];
            *pos = *pos + 1;
            if c == '\n' {
                assert(output@ + Seq::<char>::empty() == output@);
                break;
            }
            proof {
                assert(t.drop_first() == chars@.skip(*pos as int));
                assert(output@.push(c) + scan_comment(t.drop_first()).0 == output@ + (seq![c]
                    + scan_comment(t.drop_first()).0));
            }
            output.push(c);
        }
        Token::Comment(crate::text::string_of(&output))
    }
}

} // verus!
