//! Buffer text as sequences of characters: splitting on a separator
//! character, joining with one, and the fact that splitting a join of
//! separator-free pieces recovers the pieces.

use vstd::prelude::*;

verus! {

broadcast use crate::matrix::lemma_text_deep_view;

/// The pieces of `s` between occurrences of `sep`: the empty sequence has
/// one empty piece, and each further character either extends the last piece
/// or, when it is the separator, starts a new empty piece.
pub open spec fn split_on(s: Seq<char>, sep: char) -> Seq<Seq<char>>
    decreases s.len(),
{
    if s.len() == 0 {
        seq![Seq::<char>::empty()]
    } else if s.last() == sep {
        split_on(s.drop_last(), sep).push(Seq::empty())
    } else {
        let p = split_on(s.drop_last(), sep);
        p.update(p.len() - 1, p.last().push(s.last()))
    }
}

/// Splitting yields at least one piece.
pub proof fn lemma_split_on_len(s: Seq<char>, sep: char)
    ensures
        split_on(s, sep).len() >= 1,
    decreases s.len(),
{
    if s.len() > 0 {
        lemma_split_on_len(s.drop_last(), sep);
    }
}

/// Split buffer text on a separator character.
#[verifier::loop_isolation(false)]
pub fn split_chars(s: &Vec<char>, sep: char) -> (r: Vec<Vec<char>>)
    ensures
        r.deep_view() == split_on(s@, sep),
{
    let mut pieces: Vec<Vec<char>> = Vec::new();
    let mut cur: Vec<char> = Vec::new();
    let mut i: usize = 0;
    proof {
        assert(s@.subrange(0, 0) =~= Seq::<char>::empty());
        assert(pieces.deep_view().push(cur@) =~= split_on(s@.subrange(0, 0), sep));
    }
    while i < s.len()
        invariant
            i <= s@.len(),
            pieces.deep_view().push(cur@) == split_on(s@.subrange(0, i as int), sep),
        decreases s@.len() - i,
    {
        let c = s[i];
        let ghost pre = s@.subrange(0, i as int);
        let ghost pieces_pre = pieces.deep_view();
        let ghost cur_pre = cur@;
        if c == sep {
            pieces.push(cur);
            cur = Vec::new();
        } else {
            cur.push(c);
        }
        i += 1;
        proof {
            lemma_split_on_len(pre, sep);
            assert(s@.subrange(0, i as int).drop_last() =~= pre);
            assert(s@.subrange(0, i as int).last() == c);
            if c == sep {
                assert(pieces.deep_view() =~= pieces_pre.push(cur_pre));
                assert(pieces.deep_view().push(cur@) =~= split_on(
                    s@.subrange(0, i as int),
                    sep,
                ));
            } else {
                let p = split_on(pre, sep);
                assert(p.last() == cur_pre);
                assert(split_on(s@.subrange(0, i as int), sep) =~= pieces_pre.push(
                    cur_pre.push(c),
                ));
                assert(pieces.deep_view().push(cur@) =~= pieces_pre.push(cur_pre.push(c)));
            }
        }
    }
    pieces.push(cur);
    proof {
        assert(s@.subrange(0, s@.len() as int) =~= s@);
        assert(pieces.deep_view() =~= split_on(s@, sep));
    }
    pieces
}

/// The pieces joined with `sep` between consecutive pieces.
pub open spec fn join_with(pieces: Seq<Seq<char>>, sep: char) -> Seq<char>
    decreases pieces.len(),
{
    if pieces.len() == 0 {
        Seq::empty()
    } else if pieces.len() == 1 {
        pieces[0]
    } else {
        join_with(pieces.drop_last(), sep).push(sep) + pieces.last()
    }
}

/// Appending separator-free text to `s` extends the last piece of its split.
pub proof fn lemma_split_append_piece(x: Seq<char>, piece: Seq<char>, sep: char)
    requires
        forall|k: int| 0 <= k < piece.len() ==> #[trigger] piece[k] != sep,
    ensures
        ({
            let p = split_on(x, sep);
            split_on(x + piece, sep) == p.update(p.len() - 1, p.last() + piece)
        }),
    decreases piece.len(),
{
    lemma_split_on_len(x, sep);
    let p = split_on(x, sep);
    if piece.len() == 0 {
        assert(x + piece =~= x);
        assert(p.last() + piece =~= p.last());
        assert(p.update(p.len() - 1, p.last() + piece) =~= p);
    } else {
        assert(forall|k: int|
            0 <= k < piece.drop_last().len() ==> #[trigger] piece.drop_last()[k] == piece[k]);
        lemma_split_append_piece(x, piece.drop_last(), sep);
        let y = (x + piece.drop_last()).push(piece.last());
        assert(x + piece =~= y);
        assert(y.drop_last() =~= x + piece.drop_last());
        assert(y.last() == piece.last());
        assert(piece.last() != sep);
        let q = split_on(x + piece.drop_last(), sep);
        lemma_split_on_len(x + piece.drop_last(), sep);
        assert(split_on(y, sep) == q.update(q.len() - 1, q.last().push(piece.last())));
        assert((p.last() + piece.drop_last()).push(piece.last()) =~= p.last() + piece);
        assert(split_on(x + piece, sep) =~= p.update(p.len() - 1, p.last() + piece));
    }
}

/// Splitting the join of separator-free pieces recovers the pieces.
pub proof fn lemma_split_join(pieces: Seq<Seq<char>>, sep: char)
    requires
        pieces.len() >= 1,
        forall|i: int, k: int|
            0 <= i < pieces.len() && 0 <= k < pieces[i].len() ==> #[trigger] pieces[i][k] != sep,
    ensures
        split_on(join_with(pieces, sep), sep) == pieces,
    decreases pieces.len(),
{
    if pieces.len() == 1 {
        assert(Seq::<char>::empty() + pieces[0] =~= pieces[0]);
        lemma_split_append_piece(Seq::<char>::empty(), pieces[0], sep);
        let p = split_on(Seq::<char>::empty(), sep);
        assert(p == seq![Seq::<char>::empty()]);
        assert(p.update(0, p.last() + pieces[0]) =~= pieces);
    } else {
        assert(forall|i: int, k: int|
            0 <= i < pieces.drop_last().len() && 0 <= k < pieces.drop_last()[i].len()
                ==> #[trigger] pieces.drop_last()[i][k] == pieces[i][k]);
        lemma_split_join(pieces.drop_last(), sep);
        let jd = join_with(pieces.drop_last(), sep);
        let jp = jd.push(sep);
        assert(jp.drop_last() =~= jd);
        assert(split_on(jp, sep) == split_on(jd, sep).push(Seq::<char>::empty()));
        assert(forall|k: int|
            0 <= k < pieces.last().len() ==> #[trigger] pieces.last()[k] != sep);
        lemma_split_append_piece(jp, pieces.last(), sep);
        let q = split_on(jp, sep);
        assert(q == pieces.drop_last().push(Seq::<char>::empty()));
        assert(q.last() + pieces.last() =~= pieces.last());
        assert(join_with(pieces, sep) == jp + pieces.last());
        assert(split_on(join_with(pieces, sep), sep) =~= pieces);
    }
}

} // verus!
