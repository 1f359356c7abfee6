//! Character sequences: conversion between `String` and `Vec<char>`,
//! splitting on a separator and joining with one.

use vstd::prelude::*;

verus! {

broadcast use vstd::string::group_string_axioms;

/// Appends `c` to `s` (std's `String::push`).
#[verifier::external_body]
fn push_char(s: &mut String, c: char)
    ensures
        final(s)@ == old(s)@.push(c),
{
    s.push(c);
}

/// The characters of `s`, in order.
pub fn chars_of(s: &str) -> (v: Vec<char>)
    ensures
        v@ == s@,
{
    let mut v: Vec<char> = Vec::new();
    for c in it: s.chars()
        invariant
            v@ == it.seq().take(it.index()),
    {
        v.push(c);
    }
    v
}


/// A `String` holding the characters of `v`, in order.
pub fn string_of(v: &Vec<char>) -> (s: String)
    ensures
        s@ == v@,
{
    let mut s = String::new();
    for i in 0..v.len()
        invariant
            s@ == v@.take(i as int),
    {
        push_char(&mut s, v[i]);
        assert(v@.take(i + 1) == v@.take(i as int).push(v@[i as int]));
    }
    assert(v@.take(v.len() as int) == v@);
    s
}

/// The pieces of `s` between occurrences of `sep`, as `str::split` with a
/// `char` pattern gives them: one more piece than there are separators, the
/// empty sequence giving one empty piece.
pub open spec fn split_on(s: Seq<char>, sep: char) -> Seq<Seq<char>>
    decreases s.len(),
{
    if s.len() == 0 {
        seq![Seq::<char>::empty()]
    } else {
        let init = split_on(s.drop_last(), sep);
        if s.last() == sep {
            init.push(Seq::<char>::empty())
        } else {
            init.update(init.len() - 1, init.last().push(s.last()))
        }
    }
}

/// The pieces joined back with `sep` between each two.
pub open spec fn join_with(pieces: Seq<Seq<char>>, sep: char) -> Seq<char>
    decreases pieces.len(),
{
    if pieces.len() == 0 {
        Seq::<char>::empty()
    } else if pieces.len() == 1 {
        pieces[0]
    } else {
        join_with(pieces.drop_last(), sep).push(sep) + pieces.last()
    }
}

/// `split_on` never gives an empty list of pieces, and no piece holds `sep`.
pub proof fn lemma_split_on_shape(s: Seq<char>, sep: char)
    ensures
        split_on(s, sep).len() >= 1,
        forall|i: int, j: int|
            0 <= i < split_on(s, sep).len() && 0 <= j < split_on(s, sep)[i].len()
                ==> split_on(s, sep)[i][j] != sep,
    decreases s.len(),
{
    if s.len() > 0 {
        lemma_split_on_shape(s.drop_last(), sep);
        let init = split_on(s.drop_last(), sep);
        if s.last() != sep {
            let r = split_on(s, sep);
            assert forall|i: int, j: int| 0 <= i < r.len() && 0 <= j < r[i].len() implies r[i][j]
                != sep by {
                if i == init.len() - 1 && j == init.last().len() {
                } else if i == init.len() - 1 {
                    assert(r[i][j] == init[i][j]);
                } else {
                    assert(r[i] == init[i]);
                }
            }
        }
    }
}

/// Every character of every piece of a split is a character of what was split.
pub proof fn lemma_split_on_chars(s: Seq<char>, sep: char)
    ensures
        forall|i: int, j: int|
            0 <= i < split_on(s, sep).len() && 0 <= j < split_on(s, sep)[i].len()
                ==> s.contains(#[trigger] split_on(s, sep)[i][j]),
    decreases s.len(),
{
    lemma_split_on_shape(s, sep);
    if s.len() > 0 {
        lemma_split_on_chars(s.drop_last(), sep);
        lemma_split_on_shape(s.drop_last(), sep);
        let init = split_on(s.drop_last(), sep);
        let r = split_on(s, sep);
        assert forall|i: int, j: int| 0 <= i < r.len() && 0 <= j < r[i].len() implies s.contains(
            #[trigger] r[i][j],
        ) by {
            if i < init.len() && j < init[i].len() {
                assert(r[i][j] == init[i][j]);
                let k = choose|k: int| 0 <= k < s.drop_last().len() && s.drop_last()[k] == init[i][j];
                assert(s[k] == init[i][j]);
            } else {
                assert(r[i][j] == s.last());
                assert(s[s.len() - 1] == s.last());
            }
        }
    }
}

/// The first piece of a split is a prefix of what was split, the whole of
/// it where there is only one piece.
pub proof fn lemma_split_on_first(s: Seq<char>, sep: char)
    ensures
        split_on(s, sep).len() >= 1,
        split_on(s, sep)[0].len() <= s.len(),
        split_on(s, sep)[0] == s.take(split_on(s, sep)[0].len() as int),
        split_on(s, sep).len() == 1 ==> split_on(s, sep)[0] == s,
    decreases s.len(),
{
    lemma_split_on_shape(s, sep);
    if s.len() > 0 {
        lemma_split_on_first(s.drop_last(), sep);
        let init = split_on(s.drop_last(), sep);
        let r = split_on(s, sep);
        let n = init[0].len() as int;
        if s.last() == sep || init.len() > 1 {
            assert(r[0] == init[0]);
            assert(s.drop_last().take(n) =~= s.take(n));
        } else {
            assert(init[0] == s.drop_last());
            assert(r[0] == init[0].push(s.last()));
            assert(s.drop_last().push(s.last()) =~= s);
            assert(s.take(s.len() as int) =~= s);
        }
    } else {
        assert(s.take(0) == Seq::<char>::empty());
    }
}

/// Text without the separator splits into itself alone.
pub proof fn lemma_split_on_none(s: Seq<char>, sep: char)
    requires
        !s.contains(sep),
    ensures
        split_on(s, sep) == seq![s],
    decreases s.len(),
{
    if s.len() > 0 {
        let t = s.drop_last();
        assert(!t.contains(sep)) by {
            if t.contains(sep) {
                let k = choose|k: int| 0 <= k < t.len() && t[k] == sep;
                assert(s[k] == sep);
            }
        }
        lemma_split_on_none(t, sep);
        assert(s[s.len() - 1] == s.last());
        assert(s.last() != sep);
        assert(t.push(s.last()) == s);
        assert(split_on(s, sep) == seq![t].update(0, t.push(s.last())));
        assert(seq![t].update(0, t.push(s.last())) == seq![s]);
    } else {
        assert(s == Seq::<char>::empty());
    }
}

/// The first piece of text that does not start with the separator starts
/// with the text's first character.
pub proof fn lemma_split_on_first_char(s: Seq<char>, sep: char)
    requires
        s.len() > 0,
        s[0] != sep,
    ensures
        split_on(s, sep)[0].len() > 0,
        split_on(s, sep)[0][0] == s[0],
    decreases s.len(),
{
    lemma_split_on_shape(s, sep);
    let t = s.drop_last();
    if s.len() == 1 {
        assert(split_on(t, sep) == seq![Seq::<char>::empty()]);
        assert(s.last() == s[0]);
    } else {
        lemma_split_on_first_char(t, sep);
        lemma_split_on_shape(t, sep);
        let init = split_on(t, sep);
        if s.last() != sep && init.len() == 1 {
            assert(split_on(s, sep)[0] == init[0].push(s.last()));
        } else {
            assert(split_on(s, sep)[0] == init[0]);
        }
    }
}

/// Pieces free of the separator, joined and split again, come back whole.
pub proof fn lemma_split_join(pieces: Seq<Seq<char>>, sep: char)
    requires
        pieces.len() > 0,
        forall|i: int| 0 <= i < pieces.len() ==> !(#[trigger] pieces[i]).contains(sep),
    ensures
        split_on(join_with(pieces, sep), sep) == pieces,
    decreases pieces.len(),
{
    if pieces.len() == 1 {
        lemma_split_on_none(pieces[0], sep);
        assert(pieces == seq![pieces[0]]);
    } else {
        let init = pieces.drop_last();
        assert forall|i: int| 0 <= i < init.len() implies !(#[trigger] init[i]).contains(sep) by {
            assert(init[i] == pieces[i]);
        }
        lemma_split_join(init, sep);
        assert(!pieces.last().contains(sep)) by {
            assert(pieces[pieces.len() - 1] == pieces.last());
        }
        lemma_split_on_none(pieces.last(), sep);
        lemma_split_on_concat(join_with(init, sep), pieces.last(), sep);
        assert(join_with(pieces, sep) == join_with(init, sep) + seq![sep] + pieces.last());
        assert(init + seq![pieces.last()] == pieces);
    }
}

/// Splitting text made of two parts with a separator between them gives the
/// pieces of the first part followed by those of the second.
pub proof fn lemma_split_on_concat(a: Seq<char>, b: Seq<char>, sep: char)
    ensures
        split_on(a + seq![sep] + b, sep) == split_on(a, sep) + split_on(b, sep),
    decreases b.len(),
{
    let s = a + seq![sep] + b;
    if b.len() == 0 {
        assert(s == a.push(sep));
        assert(s.drop_last() == a);
    } else {
        lemma_split_on_concat(a, b.drop_last(), sep);
        lemma_split_on_shape(b.drop_last(), sep);
        assert(s.drop_last() == a + seq![sep] + b.drop_last());
        assert(s.last() == b.last());
        let x = split_on(a, sep);
        let y = split_on(b.drop_last(), sep);
        if b.last() != sep {
            assert((x + y).update((x + y).len() - 1, (x + y).last().push(b.last())) == x + y.update(
                y.len() - 1,
                y.last().push(b.last()),
            ));
        } else {
            assert((x + y).push(Seq::<char>::empty()) == x + y.push(Seq::<char>::empty()));
        }
    }
}

/// Joining the pieces of a split gives back what was split.
pub proof fn lemma_join_split(s: Seq<char>, sep: char)
    ensures
        join_with(split_on(s, sep), sep) == s,
    decreases s.len(),
{
    lemma_split_on_shape(s, sep);
    if s.len() > 0 {
        lemma_join_split(s.drop_last(), sep);
        lemma_split_on_shape(s.drop_last(), sep);
        let init = split_on(s.drop_last(), sep);
        let r = split_on(s, sep);
        if s.last() == sep {
            assert(r.drop_last() == init);
            assert(join_with(r, sep) == join_with(init, sep).push(sep) + Seq::<char>::empty());
            assert(s == s.drop_last().push(sep));
        } else {
            if init.len() == 1 {
                assert(s == s.drop_last().push(s.last()));
            } else {
                assert(r.drop_last() == init.drop_last());
                assert(join_with(init, sep) == join_with(init.drop_last(), sep).push(sep)
                    + init.last());
                assert(s == s.drop_last().push(s.last()));
            }
        }
    }
}

/// The character sequences held by a list of `Vec<char>`.
pub open spec fn seqs_of(v: Seq<Vec<char>>) -> Seq<Seq<char>> {
    v.map_values(|x: Vec<char>| x@)
}

/// The pieces of `s` between occurrences of `sep`.
pub fn split_chars(s: &Vec<char>, sep: char) -> (pieces: Vec<Vec<char>>)
    ensures
        seqs_of(pieces@) == split_on(s@, sep),
{
    let mut pieces: Vec<Vec<char>> = Vec::new();
    let mut cur: Vec<char> = Vec::new();
    for i in 0..s.len()
        invariant
            seqs_of(pieces@).push(cur@) == split_on(s@.take(i as int), sep),
    {
        let c = s[i];
        proof {
            assert(s@.take(i + 1).drop_last() == s@.take(i as int));
        }
        let ghost old_pieces = seqs_of(pieces@);
        if c == sep {
            let done = cur;
            pieces.push(done);
            cur = Vec::new();
            assert(seqs_of(pieces@) == old_pieces.push(done@));
        } else {
            cur.push(c);
        }
    }
    assert(s@.take(s.len() as int) == s@);
    let ghost old_pieces = seqs_of(pieces@);
    let ghost last = cur@;
    pieces.push(cur);
    assert(seqs_of(pieces@) == old_pieces.push(last));
    pieces
}

/// The pieces joined with `sep` between each two.
pub fn join_chars(pieces: &Vec<Vec<char>>, sep: char) -> (s: Vec<char>)
    ensures
        s@ == join_with(seqs_of(pieces@), sep),
{
    let mut s: Vec<char> = Vec::new();
    for i in 0..pieces.len()
        invariant
            s@ == join_with(seqs_of(pieces@).take(i as int), sep),
    {
        let ghost pre = seqs_of(pieces@).take(i + 1);
        assert(pre.drop_last() == seqs_of(pieces@).take(i as int));
        if i > 0 {
            s.push(sep);
        }
        let piece = &pieces[i];
        for j in 0..piece.len()
            invariant
                i > 0 ==> s@ == join_with(seqs_of(pieces@).take(i as int), sep).push(sep)
                    + piece@.take(j as int),
                i == 0 ==> s@ == piece@.take(j as int),
        {
            s.push(piece[j]);
            assert(piece@.take(j + 1) == piece@.take(j as int).push(piece@[j as int]));
        }
        assert(piece@.take(piece.len() as int) == piece@);
    }
    assert(seqs_of(pieces@).take(pieces.len() as int) == seqs_of(pieces@));
    s
}

} // verus!
