//! Splitting a text at a separator, and joining pieces with one.

use vstd::prelude::*;

verus! {

/// The pieces of `text` between the occurrences of `sep`, in their order: one
/// more than there are occurrences, so the empty text has one empty piece.
pub open spec fn spec_split(text: Seq<char>, sep: char) -> Seq<Seq<char>>
    decreases text.len(),
{
    if text.len() == 0 {
        seq![Seq::empty()]
    } else {
        let before = spec_split(text.drop_last(), sep);
        if text.last() == sep {
            before.push(Seq::empty())
        } else {
            before.drop_last().push(before.last().push(text.last()))
        }
    }
}

/// The pieces in their order, with `sep` between each two of them.
pub open spec fn spec_join(pieces: Seq<Seq<char>>, sep: Seq<char>) -> Seq<char>
    decreases pieces.len(),
{
    if pieces.len() == 0 {
        Seq::empty()
    } else if pieces.len() == 1 {
        pieces[0]
    } else {
        spec_join(pieces.drop_last(), sep) + sep + pieces.last()
    }
}

/// No piece holds the character `sep`.
pub open spec fn free_of(pieces: Seq<Seq<char>>, sep: char) -> bool {
    forall|i: int| 0 <= i < pieces.len() ==> !(#[trigger] pieces[i]).contains(sep)
}

/// The texts of a list of strings.
pub open spec fn texts(strings: Seq<String>) -> Seq<Seq<char>> {
    strings.map_values(|s: String| s@)
}

/// How the pieces grow when one more character is read: a separator starts a
/// new, empty piece, any other character goes to the end of the last piece.
pub proof fn lemma_split_push(text: Seq<char>, c: char, sep: char)
    ensures
        spec_split(text, sep).len() >= 1,
        spec_split(text.push(c), sep) == if c == sep {
            spec_split(text, sep).push(Seq::empty())
        } else {
            spec_split(text, sep).drop_last().push(spec_split(text, sep).last().push(c))
        },
    decreases text.len(),
{
    if text.len() > 0 {
        lemma_split_push(text.drop_last(), text.last(), sep);
        assert(text.drop_last().push(text.last()) =~= text);
    }
    assert(text.push(c).drop_last() =~= text);
}

/// The characters of `text` from position `from` up to position `to`, as a
/// string of their own. Where `ascii` says that the text is ASCII they are
/// found at once, else by counting characters from the start.
pub(crate) fn part(text: &str, ascii: bool, from: usize, to: usize) -> (piece: String)
    requires
        ascii ==> text.is_ascii(),
        from <= to <= text@.len(),
    ensures
        piece@ == text@.subrange(from as int, to as int),
{
    if ascii {
        String::from_str(text.substring_ascii(from, to))
    } else {
        String::from_str(text.substring_char(from, to))
    }
}

/// Splits `text` at each occurrence of `sep`.
pub fn split(text: &str, sep: char) -> (pieces: Vec<String>)
    ensures
        texts(pieces@) == spec_split(text@, sep),
{
    let mut pieces: Vec<String> = Vec::new();
    let mut start: usize = 0;
    let mut at: usize = 0;
    let ascii = text.is_ascii();
    let len = text.unicode_len();
    proof {
        assert(text@.subrange(0, 0) =~= Seq::empty());
        assert(texts(pieces@) =~= Seq::empty());
        assert(spec_split(text@.take(0), sep) =~= texts(pieces@).push(text@.subrange(0, 0)));
    }
    for c in it: text.chars()
        invariant
            it.seq() == text@,
            len == text@.len(),
            ascii ==> text.is_ascii(),
            at == it.index(),
            start <= at <= len,
            spec_split(text@.take(at as int), sep) == texts(pieces@).push(
                text@.subrange(start as int, at as int),
            ),
    {
        let ghost seen = text@.take(at as int);
        let ghost more = text@.take(at + 1);
        proof {
            assert(more =~= seen.push(c));
            lemma_split_push(seen, c, sep);
            assert(texts(pieces@).push(text@.subrange(start as int, at as int)).drop_last()
                =~= texts(pieces@));
            assert(text@.subrange(start as int, at as int).push(c) =~= text@.subrange(
                start as int,
                at + 1,
            ));
        }
        if c == sep {
            let piece = part(text, ascii, start, at);
            let ghost before = texts(pieces@);
            pieces.push(piece);
            start = at + 1;
            assert(texts(pieces@) =~= before.push(piece@));
            assert(text@.subrange(start as int, at + 1) =~= Seq::empty());
            assert(texts(pieces@).push(text@.subrange(start as int, at + 1)) =~= spec_split(
                more,
                sep,
            ));
        } else {
            assert(texts(pieces@).push(text@.subrange(start as int, at + 1)) =~= spec_split(
                more,
                sep,
            ));
        }
        at = at + 1;
    }
    assert(text@.take(at as int) =~= text@);
    let piece = part(text, ascii, start, at);
    let ghost before = texts(pieces@);
    pieces.push(piece);
    assert(texts(pieces@) =~= before.push(piece@));
    pieces
}

/// Joins the pieces, with `sep` between each two of them.
pub fn join(pieces: &Vec<String>, sep: &str) -> (joined: String)
    ensures
        joined@ == spec_join(texts(pieces@), sep@),
{
    let mut joined = String::new();
    let mut at: usize = 0;
    while at < pieces.len()
        invariant
            at <= pieces.len(),
            joined@ == spec_join(texts(pieces@).take(at as int), sep@),
        decreases pieces.len() - at,
    {
        let ghost seen = texts(pieces@).take(at as int);
        let ghost more = texts(pieces@).take(at + 1);
        assert(more.drop_last() =~= seen);
        if at > 0 {
            joined.append(sep);
        }
        joined.append(pieces[at].as_str());
        at = at + 1;
        assert(joined@ =~= spec_join(more, sep@));
    }
    assert(texts(pieces@).take(at as int) =~= texts(pieces@));
    joined
}

/// No piece of a split holds the separator.
pub proof fn lemma_split_free(text: Seq<char>, sep: char)
    ensures
        spec_split(text, sep).len() >= 1,
        free_of(spec_split(text, sep), sep),
    decreases text.len(),
{
    if text.len() > 0 {
        let before = spec_split(text.drop_last(), sep);
        lemma_split_free(text.drop_last(), sep);
        let pieces = spec_split(text, sep);
        assert forall|i: int| 0 <= i < pieces.len() implies !(#[trigger] pieces[i]).contains(
            sep,
        ) by {
            if i < pieces.len() - 1 {
                assert(pieces[i] == before[i]);
            } else if text.last() != sep {
                let piece = before.last().push(text.last());
                if piece.contains(sep) {
                    let j = choose|j: int| 0 <= j < piece.len() && piece[j] == sep;
                    assert(before.last()[j] == sep);
                    assert(before.last().contains(sep));
                }
            }
        }
    }
}

/// Joining what a split gave, with the separator that it was split at, gives
/// the text back.
pub proof fn lemma_join_split(text: Seq<char>, sep: char)
    ensures
        spec_join(spec_split(text, sep), seq![sep]) == text,
    decreases text.len(),
{
    if text.len() == 0 {
        assert(spec_join(spec_split(text, sep), seq![sep]) =~= text);
    } else {
        let shorter = text.drop_last();
        let before = spec_split(shorter, sep);
        lemma_join_split(shorter, sep);
        lemma_split_free(shorter, sep);
        let pieces = spec_split(text, sep);
        if text.last() == sep {
            assert(pieces.drop_last() =~= before);
            assert(spec_join(pieces, seq![sep]) =~= shorter.push(sep));
        } else if before.len() == 1 {
            assert(spec_join(pieces, seq![sep]) =~= shorter.push(text.last()));
        } else {
            assert(pieces.drop_last() =~= before.drop_last());
            assert(spec_join(pieces, seq![sep]) =~= shorter.push(text.last()));
        }
        assert(shorter.push(text.last()) =~= text);
    }
}

/// A text behind which more text without a separator is written splits as
/// before, with the addition at the end of the last piece.
pub proof fn lemma_split_concat(text: Seq<char>, more: Seq<char>, sep: char)
    requires
        !more.contains(sep),
    ensures
        spec_split(text, sep).len() >= 1,
        spec_split(text + more, sep) == spec_split(text, sep).drop_last().push(
            spec_split(text, sep).last() + more,
        ),
    decreases more.len(),
{
    let pieces = spec_split(text, sep);
    lemma_split_free(text, sep);
    if more.len() == 0 {
        assert(text + more =~= text);
        assert(pieces.last() + more =~= pieces.last());
        assert(pieces.drop_last().push(pieces.last()) =~= pieces);
    } else {
        let shorter = more.drop_last();
        assert(!shorter.contains(sep)) by {
            if shorter.contains(sep) {
                let j = choose|j: int| 0 <= j < shorter.len() && shorter[j] == sep;
                assert(more[j] == sep);
            }
        }
        assert(more.last() != sep) by {
            assert(more[more.len() - 1] == more.last());
        }
        lemma_split_concat(text, shorter, sep);
        lemma_split_push(text + shorter, more.last(), sep);
        assert((text + shorter).push(more.last()) =~= text + more);
        assert((pieces.last() + shorter).push(more.last()) =~= pieces.last() + more);
        assert(spec_split(text + more, sep) =~= pieces.drop_last().push(pieces.last() + more));
    }
}

/// Splitting what a join gave, at the separator that it was joined with,
/// gives the pieces back, where there is a piece and no piece holds the
/// separator.
pub proof fn lemma_split_join(pieces: Seq<Seq<char>>, sep: char)
    requires
        pieces.len() >= 1,
        free_of(pieces, sep),
    ensures
        spec_split(spec_join(pieces, seq![sep]), sep) == pieces,
    decreases pieces.len(),
{
    let empty = Seq::<char>::empty();
    assert(spec_split(empty, sep) =~= seq![empty]);
    if pieces.len() == 1 {
        lemma_split_concat(empty, pieces[0], sep);
        assert(empty + pieces[0] =~= pieces[0]);
        assert(spec_split(pieces[0], sep) =~= pieces);
    } else {
        let shorter = pieces.drop_last();
        assert(free_of(shorter, sep)) by {
            assert forall|i: int| 0 <= i < shorter.len() implies !(#[trigger] shorter[i]).contains(
                sep,
            ) by {
                assert(shorter[i] == pieces[i]);
            }
        }
        lemma_split_join(shorter, sep);
        let joined = spec_join(shorter, seq![sep]);
        lemma_split_push(joined, sep, sep);
        assert(joined + seq![sep] =~= joined.push(sep));
        lemma_split_concat(joined.push(sep), pieces.last(), sep);
        assert(shorter.push(empty).drop_last() =~= shorter);
        assert(empty + pieces.last() =~= pieces.last());
        assert(shorter.push(pieces.last()) =~= pieces);
    }
}

} // verus!
