//! The search for moves: constraints from cross words, anchors, the
//! automaton over the lexicon, and the moves it yields.

use rayon::slice::ParallelSliceMut;
use vstd::prelude::*;

pub mod letter_set;
pub mod lexicon;
pub mod restrictionner;
pub mod score;
pub mod word_finder;

verus! {

use crate::LetterTile;
use letter_set::LetterSet;

/// A square as the search sees it: filled, or empty with the letters that
/// the cross word through it allows.
#[derive(Copy, Clone, PartialEq, Eq, Debug)]
pub enum RestrictedSquare {
    Empty(LetterSet),
    Filled(LetterTile),
}

} // verus!

verus! {

use crate::{Letter, Move, MoveView, Placement};

/// The placement `i` squares further along the line of `place`.
pub open spec fn line_place(place: Placement, i: int) -> Placement {
    Placement(place.0.with_coord(place.1, (place.0.coord(place.1) + i) as usize), place.1)
}

/// The tile played at index `i` of word `w`: a blank where the cross word
/// forces one (`inter`) or where `blanks` puts one, else the letter.
pub open spec fn chosen_tile(w: Seq<u8>, inter: Seq<bool>, blanks: Seq<bool>, i: int) -> LetterTile {
    if inter[i] || blanks[i] {
        LetterTile::Wildcard
    } else {
        LetterTile::Letter(Letter(w[i]))
    }
}

/// The move built from the first `i` squares of the line: its first tile (with
/// the number of board squares since the last played tile), and the others.
pub open spec fn partial_move(
    place: Placement,
    line: Seq<RestrictedSquare>,
    w: Seq<u8>,
    inter: Seq<bool>,
    blanks: Seq<bool>,
    i: int,
) -> (Option<(Placement, LetterTile, usize)>, Seq<(usize, LetterTile)>)
    decreases i,
{
    if i <= 0 {
        (None, Seq::empty())
    } else {
        let (f, o) = partial_move(place, line, w, inter, blanks, i - 1);
        if line[i - 1] is Empty {
            let t = chosen_tile(w, inter, blanks, i - 1);
            match f {
                None => (Some((line_place(place, i - 1), t, 0usize)), o),
                Some((p, t0, g)) => (Some((p, t0, 0usize)), o.push((g, t))),
            }
        } else {
            match f {
                None => (None, o),
                Some((p, t0, g)) => (Some((p, t0, (g + 1) as usize)), o),
            }
        }
    }
}

/// The move that plays word `w` from `place` with blanks where `blanks` says
/// (and where `inter` forces them); none if it plays no tile.
pub open spec fn move_from(
    place: Placement,
    line: Seq<RestrictedSquare>,
    w: Seq<u8>,
    inter: Seq<bool>,
    blanks: Seq<bool>,
) -> Option<MoveView> {
    let (f, o) = partial_move(place, line, w, inter, blanks, w.len() as int);
    match f {
        None => None,
        Some((p, t, _)) => Some(
            if o.len() == 0 {
                MoveView::SingleLetter(p.0, t)
            } else {
                MoveView::MultiLetters(p, t, o)
            },
        ),
    }
}

/// How many of the first `k` indices hold a chosen blank for letter `b`.
pub open spec fn count_blanks(blanks: Seq<bool>, w: Seq<u8>, b: u8, k: int) -> int
    decreases k,
{
    if k <= 0 {
        0
    } else {
        count_blanks(blanks, w, b, k - 1) + if blanks[k - 1] && w[k - 1] == b {
            1int
        } else {
            0
        }
    }
}

/// `blanks` puts blanks on empty squares not already forced, exactly
/// `missing[b]` of them on the letters `b`.
pub open spec fn valid_blanks(
    line: Seq<RestrictedSquare>,
    w: Seq<u8>,
    inter: Seq<bool>,
    missing: Seq<u8>,
    blanks: Seq<bool>,
) -> bool {
    &&& blanks.len() == w.len()
    &&& forall|i: int| 0 <= i < w.len() && #[trigger] blanks[i] ==> line[i] is Empty && !inter[i]
    &&& forall|b: u8| #[trigger] count_blanks(blanks, w, b, w.len() as int) == missing[b as int]
}

/// `m` is the move of a valid choice of blanks that starts with `prefix`.
pub open spec fn blank_move(
    place: Placement,
    line: Seq<RestrictedSquare>,
    w: Seq<u8>,
    inter: Seq<bool>,
    missing: Seq<u8>,
    prefix: Seq<bool>,
    m: MoveView,
) -> bool {
    exists|b: Seq<bool>|
        valid_blanks(line, w, inter, missing, b) && b.take(prefix.len() as int) == prefix && move_from(place, line, w, inter, b) == Some(m)
}

proof fn lemma_blank_move_shorter(
    place: Placement,
    line: Seq<RestrictedSquare>,
    w: Seq<u8>,
    inter: Seq<bool>,
    missing: Seq<u8>,
    prefix: Seq<bool>,
    x: bool,
    m: MoveView,
)
    requires
        prefix.len() < w.len(),
        blank_move(place, line, w, inter, missing, prefix.push(x), m),
    ensures
        blank_move(place, line, w, inter, missing, prefix, m),
{
    let b = choose|b: Seq<bool>|
        valid_blanks(line, w, inter, missing, b) && b.take(prefix.len() as int + 1) == prefix.push(x) && move_from(place, line, w, inter, b) == Some(m);
    assert(b.take(prefix.len() as int) =~= b.take(prefix.len() as int + 1).take(prefix.len() as int));
    assert(prefix.push(x).take(prefix.len() as int) =~= prefix);
}

/// The tiles a partial move plays, in order.
pub open spec fn partial_tiles(pm: (Option<(Placement, LetterTile, usize)>, Seq<(usize, LetterTile)>)) -> Seq<LetterTile> {
    match pm.0 {
        None => Seq::empty(),
        Some((_, t, _)) => seq![t] + pm.1.map_values(|e: (usize, LetterTile)| e.1),
    }
}

/// The tiles a move plays, in order.
pub open spec fn move_tiles(m: MoveView) -> Seq<LetterTile> {
    match m {
        MoveView::SingleLetter(_, t) => seq![t],
        MoveView::MultiLetters(_, t, o) => seq![t] + o.map_values(|e: (usize, LetterTile)| e.1),
    }
}

/// How many of the first `i` squares of the line are empty.
pub open spec fn empties(line: Seq<RestrictedSquare>, i: int) -> int
    decreases i,
{
    if i <= 0 {
        0
    } else {
        empties(line, i - 1) + if line[i - 1] is Empty {
            1int
        } else {
            0
        }
    }
}

proof fn lemma_empties_mono(line: Seq<RestrictedSquare>, j: int, i: int)
    requires
        0 <= j <= i,
    ensures
        empties(line, j) <= empties(line, i),
    decreases i,
{
    if j < i {
        lemma_empties_mono(line, j, i - 1);
    }
}

proof fn lemma_partial_tiles(
    place: Placement,
    line: Seq<RestrictedSquare>,
    w: Seq<u8>,
    inter: Seq<bool>,
    b: Seq<bool>,
    i: int,
)
    requires
        0 <= i,
    ensures
        partial_move(place, line, w, inter, b, i).0 is None ==> partial_move(place, line, w, inter, b, i).1.len() == 0,
        partial_tiles(partial_move(place, line, w, inter, b, i)).len() == empties(line, i),
        forall|j: int| 0 <= j < i && line[j] is Empty ==> partial_tiles(partial_move(place, line, w, inter, b, i))[empties(line, j)]
            == chosen_tile(w, inter, b, j),
    decreases i,
{
    if i > 0 {
        lemma_partial_tiles(place, line, w, inter, b, i - 1);
        let prev = partial_tiles(partial_move(place, line, w, inter, b, i - 1));
        let cur = partial_tiles(partial_move(place, line, w, inter, b, i));
        if line[i - 1] is Empty {
            assert(cur =~= prev.push(chosen_tile(w, inter, b, i - 1)));
        } else {
            assert(cur =~= prev);
        }
        assert forall|j: int| 0 <= j < i && line[j] is Empty implies cur[empties(line, j)] == chosen_tile(w, inter, b, j) by {
            if j < i - 1 {
                lemma_empties_mono(line, j + 1, i - 1);
                lemma_empties_mono(line, 0, j);
                assert(empties(line, j + 1) == empties(line, j) + 1);
                assert(prev[empties(line, j)] == chosen_tile(w, inter, b, j));
                assert(cur[empties(line, j)] == prev[empties(line, j)]);
            } else {
                assert(prev.len() == empties(line, i - 1));
                assert(cur[prev.len() as int] == chosen_tile(w, inter, b, i - 1));
            }
        }
    }
}

/// Two valid choices of blanks that give the same move are the same choice.
proof fn lemma_move_from_injective(
    place: Placement,
    line: Seq<RestrictedSquare>,
    w: Seq<u8>,
    inter: Seq<bool>,
    missing: Seq<u8>,
    b1: Seq<bool>,
    b2: Seq<bool>,
)
    requires
        valid_blanks(line, w, inter, missing, b1),
        valid_blanks(line, w, inter, missing, b2),
        move_from(place, line, w, inter, b1) is Some,
        move_from(place, line, w, inter, b1) == move_from(place, line, w, inter, b2),
    ensures
        b1 == b2,
{
    let n = w.len() as int;
    lemma_partial_tiles(place, line, w, inter, b1, n);
    lemma_partial_tiles(place, line, w, inter, b2, n);
    let m = move_from(place, line, w, inter, b1)->0;
    assert(partial_tiles(partial_move(place, line, w, inter, b1, n)) =~= move_tiles(m));
    assert(partial_tiles(partial_move(place, line, w, inter, b2, n)) =~= move_tiles(m));
    assert forall|j: int| 0 <= j < n implies b1[j] == b2[j] by {
        if b1[j] != b2[j] {
            assert(line[j] is Empty && !inter[j]);
            assert(chosen_tile(w, inter, b1, j) != chosen_tile(w, inter, b2, j));
        }
    }
    assert(b1 =~= b2);
}

proof fn lemma_blank_moves_differ(
    place: Placement,
    line: Seq<RestrictedSquare>,
    w: Seq<u8>,
    inter: Seq<bool>,
    missing: Seq<u8>,
    chosen: Seq<bool>,
    m1: MoveView,
    m2: MoveView,
)
    requires
        chosen.len() < w.len(),
        blank_move(place, line, w, inter, missing, chosen.push(true), m1),
        blank_move(place, line, w, inter, missing, chosen.push(false), m2),
    ensures
        m1 != m2,
{
    let b1 = choose|b: Seq<bool>|
        valid_blanks(line, w, inter, missing, b) && b.take(chosen.len() as int + 1) == chosen.push(true) && move_from(place, line, w, inter, b) == Some(m1);
    let b2 = choose|b: Seq<bool>|
        valid_blanks(line, w, inter, missing, b) && b.take(chosen.len() as int + 1) == chosen.push(false) && move_from(place, line, w, inter, b) == Some(m2);
    assert(b1[chosen.len() as int] == b1.take(chosen.len() as int + 1)[chosen.len() as int]);
    assert(b2[chosen.len() as int] == b2.take(chosen.len() as int + 1)[chosen.len() as int]);
    if m1 == m2 {
        lemma_move_from_injective(place, line, w, inter, missing, b1, b2);
    }
}

proof fn lemma_partial_prefix(
    place: Placement,
    line: Seq<RestrictedSquare>,
    w: Seq<u8>,
    inter: Seq<bool>,
    a: Seq<bool>,
    b: Seq<bool>,
    i: int,
)
    requires
        0 <= i <= a.len(),
        i <= b.len(),
        a.take(i) == b.take(i),
    ensures
        partial_move(place, line, w, inter, a, i) == partial_move(place, line, w, inter, b, i),
    decreases i,
{
    if i > 0 {
        assert(a.take(i - 1) =~= a.take(i).take(i - 1));
        assert(b.take(i - 1) =~= b.take(i).take(i - 1));
        assert(a[i - 1] == a.take(i)[i - 1]);
        assert(b[i - 1] == b.take(i)[i - 1]);
        lemma_partial_prefix(place, line, w, inter, a, b, i - 1);
    }
}

proof fn lemma_count_prefix(a: Seq<bool>, b: Seq<bool>, w: Seq<u8>, l: u8, i: int)
    requires
        0 <= i <= a.len(),
        i <= b.len(),
        a.take(i) == b.take(i),
    ensures
        count_blanks(a, w, l, i) == count_blanks(b, w, l, i),
    decreases i,
{
    if i > 0 {
        assert(a.take(i - 1) =~= a.take(i).take(i - 1));
        assert(b.take(i - 1) =~= b.take(i).take(i - 1));
        assert(a[i - 1] == a.take(i)[i - 1]);
        assert(b[i - 1] == b.take(i)[i - 1]);
        lemma_count_prefix(a, b, w, l, i - 1);
    }
}

proof fn lemma_count_mono(a: Seq<bool>, w: Seq<u8>, l: u8, i: int, j: int)
    requires
        0 <= i <= j,
    ensures
        count_blanks(a, w, l, i) <= count_blanks(a, w, l, j),
    decreases j,
{
    if i < j {
        lemma_count_mono(a, w, l, i, j - 1);
    }
}

proof fn lemma_partial_gap(
    place: Placement,
    line: Seq<RestrictedSquare>,
    w: Seq<u8>,
    inter: Seq<bool>,
    b: Seq<bool>,
    i: int,
)
    requires
        0 <= i,
    ensures
        partial_move(place, line, w, inter, b, i).0 matches Some((_, _, g)) ==> g <= i,
    decreases i,
{
    if i > 0 {
        lemma_partial_gap(place, line, w, inter, b, i - 1);
    }
}

/// Appends to `moves` the move of `chosen` when it is a valid choice of blanks.
fn emit_move(
    place: Placement,
    line: &[RestrictedSquare],
    word: &[u8],
    inter: &[bool],
    first: Option<(Placement, LetterTile, usize)>,
    others: &mut Vec<(usize, LetterTile)>,
    missing: [u8; 256],
    moves: &mut Vec<Move>,
    chosen: Ghost<Seq<bool>>,
    missing0: Ghost<Seq<u8>>,
)
    requires
        word@.len() <= line@.len(),
        inter@.len() == word@.len(),
        place.0.coord(place.1) + word@.len() < usize::MAX,
        chosen@.len() == word@.len(),
        missing0@.len() == 256,
        (first, old(others)@) == partial_move(place, line@, word@, inter@, chosen@, word@.len() as int),
        forall|b: u8| #[trigger] missing@[b as int] == missing0@[b as int] - count_blanks(chosen@, word@, b, word@.len() as int),
        forall|j: int| 0 <= j < word@.len() && #[trigger] chosen@[j] ==> line@[j] is Empty && !inter@[j],
    ensures
        final(others)@ == old(others)@,
        final(moves)@.len() >= old(moves)@.len(),
        forall|k: int| 0 <= k < old(moves)@.len() ==> (#[trigger] final(moves)@[k])@ == old(moves)@[k]@,
        forall|k: int| old(moves)@.len() <= k < final(moves)@.len() ==> blank_move(place, line@, word@, inter@, missing0@, chosen@, (#[trigger] final(moves)@[k])@),
        forall|x: int, y: int| old(moves)@.len() <= x < y < final(moves)@.len() ==> final(moves)@[x]@ != final(moves)@[y]@,
        forall|b: Seq<bool>|
            valid_blanks(line@, word@, inter@, missing0@, b) && b.take(word@.len() as int) == chosen@ && (#[trigger] move_from(place, line@, word@, inter@, b)) is Some
                ==> exists|k: int| old(moves)@.len() <= k < final(moves)@.len() && Some(final(moves)@[k]@) == move_from(place, line@, word@, inter@, b),
{
    let n = word.len();
    let i = n;
    let mut all_used = true;
    let mut b: usize = 0;
    while b < 256
        invariant
            b <= 256,
            all_used == forall|c: int| 0 <= c < b ==> missing@[c] == 0,
        decreases 256 - b,
    {
        if missing[b] != 0 {
            all_used = false;
        }
        b += 1;
    }
    proof {
        assert(chosen@.take(i as int) =~= chosen@);
        assert forall|bl: Seq<bool>| valid_blanks(line@, word@, inter@, missing0@, bl) && bl.take(i as int) == chosen@ implies bl == chosen@ by {
            assert(bl =~= bl.take(i as int));
        }
    }
    if all_used {
        match first {
            Some((p, t, _)) => {
                let m = if others.len() == 0 {
                    Move::SingleLetter(p.0, t)
                } else {
                    let mut v: Vec<(usize, LetterTile)> = Vec::new();
                    let mut k: usize = 0;
                    while k < others.len()
                        invariant
                            k <= others@.len(),
                            v@ == others@.take(k as int),
                        decreases others@.len() - k,
                    {
                        v.push(others[k]);
                        proof {
                            assert(others@.take(k + 1) =~= others@.take(k as int).push(others@[k as int]));
                        }
                        k += 1;
                    }
                    proof {
                        assert(others@.take(others@.len() as int) =~= others@);
                    }
                    Move::MultiLetters(p, t, v)
                };
                proof {
                    assert forall|c: u8| #[trigger] count_blanks(chosen@, word@, c, n as int) == missing0@[c as int] by {
                        assert(missing@[c as int] == 0);
                    }
                    assert(valid_blanks(line@, word@, inter@, missing0@, chosen@));
                    assert(move_from(place, line@, word@, inter@, chosen@) == Some(m@));
                    assert(blank_move(place, line@, word@, inter@, missing0@, chosen@, m@));
                }
                moves.push(m);
                proof {
                    assert(moves@[moves@.len() - 1]@ == m@);
                }
            },
            None => {},
        }
    } else {
        proof {
            let c = choose|c: int| 0 <= c < 256 && missing@[c] != 0;
            let cb = c as u8;
            assert(missing@[cb as int] != 0);
        }
    }
}

/// Appends to `moves` the move of each valid choice of blanks that agrees with
/// `chosen` on the first `i` indices.
#[verifier::spinoff_prover]
#[verifier::rlimit(40)]
fn expand(
    place: Placement,
    line: &[RestrictedSquare],
    word: &[u8],
    inter: &[bool],
    i: usize,
    cur: Placement,
    first: Option<(Placement, LetterTile, usize)>,
    others: &mut Vec<(usize, LetterTile)>,
    missing: [u8; 256],
    moves: &mut Vec<Move>,
    chosen: Ghost<Seq<bool>>,
    missing0: Ghost<Seq<u8>>,
)
    requires
        word@.len() <= line@.len(),
        inter@.len() == word@.len(),
        i <= word@.len(),
        place.0.coord(place.1) + word@.len() < usize::MAX,
        chosen@.len() == i,
        missing0@.len() == 256,
        cur == line_place(place, i as int),
        (first, old(others)@) == partial_move(place, line@, word@, inter@, chosen@, i as int),
        forall|b: u8| #[trigger] missing@[b as int] == missing0@[b as int] - count_blanks(chosen@, word@, b, i as int),
        forall|j: int| 0 <= j < i && #[trigger] chosen@[j] ==> line@[j] is Empty && !inter@[j],
    ensures
        final(others)@ == old(others)@,
        final(moves)@.len() >= old(moves)@.len(),
        forall|k: int| 0 <= k < old(moves)@.len() ==> (#[trigger] final(moves)@[k])@ == old(moves)@[k]@,
        forall|k: int| old(moves)@.len() <= k < final(moves)@.len() ==> blank_move(place, line@, word@, inter@, missing0@, chosen@, (#[trigger] final(moves)@[k])@),
        forall|x: int, y: int| old(moves)@.len() <= x < y < final(moves)@.len() ==> final(moves)@[x]@ != final(moves)@[y]@,
        forall|b: Seq<bool>|
            valid_blanks(line@, word@, inter@, missing0@, b) && b.take(i as int) == chosen@ && (#[trigger] move_from(place, line@, word@, inter@, b)) is Some
                ==> exists|k: int| old(moves)@.len() <= k < final(moves)@.len() && Some(final(moves)@[k]@) == move_from(place, line@, word@, inter@, b),
    decreases word@.len() - i,
{
    let n = word.len();
    if i == n {
        emit_move(place, line, word, inter, first, others, missing, moves, chosen, missing0);
        return;
    }
    let next = cur.next();
    let l = word[i];
    match line[i] {
        RestrictedSquare::Empty(_) => {
            let tile = if inter[i] { LetterTile::Wildcard } else { LetterTile::Letter(Letter(l)) };
            let ghost cb = chosen@.push(false);
            let ghost ca = chosen@.push(true);
            proof {
                assert(cb.take(i as int) =~= chosen@);
                assert(ca.take(i as int) =~= chosen@);
                assert(chosen@.take(i as int) =~= chosen@);
                lemma_partial_prefix(place, line@, word@, inter@, cb, chosen@, i as int);
                lemma_partial_prefix(place, line@, word@, inter@, ca, chosen@, i as int);
                assert forall|b: u8| #[trigger] missing@[b as int] == missing0@[b as int] - count_blanks(cb, word@, b, i + 1) by {
                    lemma_count_prefix(cb, chosen@, word@, b, i as int);
                }
                assert forall|bl: Seq<bool>| bl.len() == n && (bl.take(i + 1) == cb || bl.take(i + 1) == ca) implies bl.take(i as int) == chosen@ by {
                    assert(bl.take(i as int) =~= bl.take(i + 1).take(i as int));
                }
            }
            if !inter[i] && missing[l as usize] > 0 {
                let mut missing_new = missing;
                missing_new[l as usize] = missing[l as usize] - 1;
                let (f2, pushed) = match first {
                    Some((p, t, g)) => {
                        others.push((g, LetterTile::Wildcard));
                        (Some((p, t, 0usize)), true)
                    },
                    None => (Some((cur, LetterTile::Wildcard, 0usize)), false),
                };
                proof {
                    assert forall|b: u8| #[trigger] missing_new@[b as int] == missing0@[b as int] - count_blanks(ca, word@, b, i + 1) by {
                        lemma_count_prefix(ca, chosen@, word@, b, i as int);
                    }
                }
                expand(place, line, word, inter, i + 1, next, f2, others, missing_new, moves, Ghost(ca), missing0);
                if pushed {
                    others.pop();
                }
                assert(others@ == old(others)@);
                let ghost mid = moves@;
                let (f3, pushed) = match first {
                    Some((p, t, g)) => {
                        others.push((g, tile));
                        (Some((p, t, 0usize)), true)
                    },
                    None => (Some((cur, tile, 0usize)), false),
                };
                expand(place, line, word, inter, i + 1, next, f3, others, missing, moves, Ghost(cb), missing0);
                if pushed {
                    others.pop();
                }
                proof {
                    assert forall|x: int, y: int| old(moves)@.len() <= x < y < moves@.len() implies moves@[x]@ != moves@[y]@ by {
                        if x < mid.len() && y >= mid.len() {
                            assert(moves@[x]@ == mid[x]@);
                            lemma_blank_moves_differ(place, line@, word@, inter@, missing0@, chosen@, mid[x]@, moves@[y]@);
                        } else if y < mid.len() {
                            assert(moves@[x]@ == mid[x]@ && moves@[y]@ == mid[y]@);
                        }
                    }
                    assert forall|k: int| old(moves)@.len() <= k < moves@.len() implies blank_move(place, line@, word@, inter@, missing0@, chosen@, #[trigger] moves@[k]@) by {
                        if k < mid.len() {
                            assert(moves@[k]@ == mid[k]@);
                            lemma_blank_move_shorter(place, line@, word@, inter@, missing0@, chosen@, true, mid[k]@);
                        } else {
                            lemma_blank_move_shorter(place, line@, word@, inter@, missing0@, chosen@, false, moves@[k]@);
                        }
                    }
                    assert forall|bl: Seq<bool>|
                        valid_blanks(line@, word@, inter@, missing0@, bl) && bl.take(i as int) == chosen@ && (#[trigger] move_from(place, line@, word@, inter@, bl)) is Some
                            implies exists|k: int| old(moves)@.len() <= k < moves@.len() && Some(moves@[k]@) == move_from(place, line@, word@, inter@, bl) by {
                        if bl[i as int] {
                            assert(bl.take(i + 1) =~= ca);
                            let k = choose|k: int| old(moves)@.len() <= k < mid.len() && Some(mid[k]@) == move_from(place, line@, word@, inter@, bl);
                            assert(moves@[k]@ == mid[k]@);
                        } else {
                            assert(bl.take(i + 1) =~= cb);
                        }
                    }
                }
            } else {
                let (f3, pushed) = match first {
                    Some((p, t, g)) => {
                        others.push((g, tile));
                        (Some((p, t, 0usize)), true)
                    },
                    None => (Some((cur, tile, 0usize)), false),
                };
                expand(place, line, word, inter, i + 1, next, f3, others, missing, moves, Ghost(cb), missing0);
                if pushed {
                    others.pop();
                }
                proof {
                    assert forall|k: int| old(moves)@.len() <= k < moves@.len() implies blank_move(place, line@, word@, inter@, missing0@, chosen@, #[trigger] moves@[k]@) by {
                        lemma_blank_move_shorter(place, line@, word@, inter@, missing0@, chosen@, false, moves@[k]@);
                    }
                    assert forall|bl: Seq<bool>|
                        valid_blanks(line@, word@, inter@, missing0@, bl) && bl.take(i as int) == chosen@ && (#[trigger] move_from(place, line@, word@, inter@, bl)) is Some
                            implies exists|k: int| old(moves)@.len() <= k < moves@.len() && Some(moves@[k]@) == move_from(place, line@, word@, inter@, bl) by {
                        if bl[i as int] {
                            lemma_count_prefix(bl, chosen@, word@, l, i as int);
                            lemma_count_mono(bl, word@, l, i + 1, n as int);
                        }
                        assert(bl.take(i + 1) =~= cb);
                    }
                }
            }
        },
        RestrictedSquare::Filled(_) => {
            let f2 = match first {
                Some((p, t, g)) => {
                    proof {
                        lemma_partial_gap(place, line@, word@, inter@, chosen@, i as int);
                    }
                    Some((p, t, g + 1))
                },
                None => None,
            };
            let ghost cb = chosen@.push(false);
            proof {
                assert(cb.take(i as int) =~= chosen@);
                assert(chosen@.take(i as int) =~= chosen@);
                lemma_partial_prefix(place, line@, word@, inter@, cb, chosen@, i as int);
                assert forall|b: u8| #[trigger] missing@[b as int] == missing0@[b as int] - count_blanks(cb, word@, b, i + 1) by {
                    lemma_count_prefix(cb, chosen@, word@, b, i as int);
                }
            }
            expand(place, line, word, inter, i + 1, next, f2, others, missing, moves, Ghost(cb), missing0);
            proof {
                assert forall|k: int| old(moves)@.len() <= k < moves@.len() implies blank_move(place, line@, word@, inter@, missing0@, chosen@, #[trigger] moves@[k]@) by {
                    lemma_blank_move_shorter(place, line@, word@, inter@, missing0@, chosen@, false, moves@[k]@);
                }
                assert forall|bl: Seq<bool>|
                    valid_blanks(line@, word@, inter@, missing0@, bl) && bl.take(i as int) == chosen@ implies bl.take(i + 1) == cb by {
                    assert(!bl[i as int]);
                    assert(bl.take(i + 1) =~= cb);
                }
                assert forall|bl: Seq<bool>| bl.len() == n && bl.take(i + 1) == cb implies bl.take(i as int) == chosen@ by {
                    assert(bl.take(i as int) =~= bl.take(i + 1).take(i as int));
                    assert(cb.take(i as int) =~= chosen@);
                }
            }
        },
    }
}

} // verus!

verus! {

use crate::{Board, Direction, Position, Square, Table, BOARD_SIZE};
use crate::score_rules::{BoardBonus, LetterScoring};
use crate::Rules;
use letter_set::alphabet;
use lexicon::{search_playable_words, words};
use restrictionner::{find_restrictions, restriction_for};
use score::{capped, move_score, naive_score};
use word_finder::{state_view, ScrabbleAutomata, TrayRemaining, WildcardAssignment, WildcardAssignmentList};

/// Appends to `moves` the moves that play `word` from `place` along `line`,
/// with blanks where `wildcards_intersection` forces them and, for each
/// letter `b`, exactly `wildcards_missing[b]` more blanks standing for `b`
/// (every way of placing them), so that no move uses more blanks than needed.
pub fn generate_moves_for_word(
    place: Placement,
    line: &[RestrictedSquare],
    word: &[u8],
    wildcards_intersection: &[bool],
    wildcards_missing: &[u8; 256],
    moves: &mut Vec<Move>,
)
    requires
        word@.len() <= line@.len(),
        wildcards_intersection@.len() == word@.len(),
        place.0.coord(place.1) + word@.len() < usize::MAX,
    ensures
        final(moves)@.len() >= old(moves)@.len(),
        forall|k: int| 0 <= k < old(moves)@.len() ==> (#[trigger] final(moves)@[k])@ == old(moves)@[k]@,
        forall|x: int, y: int| old(moves)@.len() <= x < y < final(moves)@.len() ==> final(moves)@[x]@ != final(moves)@[y]@,
        forall|k: int| old(moves)@.len() <= k < final(moves)@.len() ==> blank_move(
            place,
            line@,
            word@,
            wildcards_intersection@,
            wildcards_missing@,
            Seq::empty(),
            (#[trigger] final(moves)@[k])@,
        ),
        forall|b: Seq<bool>|
            valid_blanks(line@, word@, wildcards_intersection@, wildcards_missing@, b) && (#[trigger] move_from(
                place,
                line@,
                word@,
                wildcards_intersection@,
                b,
            )) is Some ==> exists|k: int|
                old(moves)@.len() <= k < final(moves)@.len() && Some(final(moves)@[k]@) == move_from(
                    place,
                    line@,
                    word@,
                    wildcards_intersection@,
                    b,
                ),
{
    let mut others: Vec<(usize, LetterTile)> = Vec::new();
    proof {
        assert(place == line_place(place, 0));
        assert forall|b: Seq<bool>| b.len() == word@.len() implies b.take(0) == Seq::<bool>::empty() by {
            assert(b.take(0) =~= Seq::<bool>::empty());
        }
    }
    expand(
        place,
        line,
        word,
        wildcards_intersection,
        0,
        place,
        None,
        &mut others,
        *wildcards_missing,
        moves,
        Ghost(Seq::empty()),
        Ghost(wildcards_missing@),
    );
}

/// The square at coordinate `j` along `dir` and `x` across it.
pub open spec fn square_at(t: Seq<Seq<Square>>, dir: Direction, j: int, x: int) -> Square {
    let p = Position { row: 0, col: 0 }.with_coord(dir, j as usize).with_coord(dir.perp(), x as usize);
    t[p.row as int][p.col as int]
}

/// The line along `dir` at coordinate `x` across it.
pub open spec fn board_line(t: Seq<Seq<Square>>, dir: Direction, x: int) -> Seq<Square> {
    Seq::new(BOARD_SIZE as nat, |j: int| square_at(t, dir, j, x))
}

/// For each square, the letters the cross word along one direction allows.
#[derive(Clone, Debug)]
pub struct ConstrainedBoard {
    /// The direction of the cross words (moves that use this board go across it).
    dir: Direction,
    /// Indexed by the coordinate along `dir`, then the one across it.
    table: Vec<Vec<RestrictedSquare>>,
}

impl ConstrainedBoard {
    pub closed spec fn direction(&self) -> Direction {
        self.dir
    }

    /// Row `c` holds the squares at coordinate `c` along the direction.
    pub closed spec fn rows(&self) -> Seq<Seq<RestrictedSquare>> {
        Seq::new(self.table@.len(), |i: int| self.table@[i]@)
    }

    pub open spec fn wf(&self) -> bool {
        &&& self.rows().len() == BOARD_SIZE
        &&& forall|c: int| 0 <= c < BOARD_SIZE ==> #[trigger] self.rows()[c].len() == BOARD_SIZE
    }

    /// The restrictions of the board's squares for cross words along `dir`.
    pub fn build(board_table: &Table<Square>, dir: Direction, dictionary: &fst::Set<Vec<u8>>) -> (r: ConstrainedBoard)
        requires
            board_table.wf(),
        ensures
            r.wf(),
            r.direction() == dir,
            forall|c: int, x: int| 0 <= c < BOARD_SIZE && 0 <= x < BOARD_SIZE ==> restriction_for(
                #[trigger] r.rows()[c][x],
                board_line(board_table@, dir, x),
                c,
                words(*dictionary),
            ),
    {
        let mut table: Vec<Vec<RestrictedSquare>> = Vec::new();
        let mut c: usize = 0;
        while c < BOARD_SIZE
            invariant
                c <= BOARD_SIZE,
                table@.len() == c,
                forall|a: int| 0 <= a < c ==> (#[trigger] table@[a])@.len() == BOARD_SIZE,
            decreases BOARD_SIZE - c,
        {
            let mut row: Vec<RestrictedSquare> = Vec::new();
            let mut x: usize = 0;
            while x < BOARD_SIZE
                invariant
                    x <= BOARD_SIZE,
                    row@.len() == x,
                decreases BOARD_SIZE - x,
            {
                row.push(RestrictedSquare::Empty(LetterSet::empty()));
                x += 1;
            }
            table.push(row);
            c += 1;
        }
        let mut x: usize = 0;
        while x < BOARD_SIZE
            invariant
                board_table.wf(),
                x <= BOARD_SIZE,
                table@.len() == BOARD_SIZE,
                forall|a: int| 0 <= a < BOARD_SIZE ==> (#[trigger] table@[a])@.len() == BOARD_SIZE,
                forall|c: int, y: int| 0 <= c < BOARD_SIZE && 0 <= y < x ==> restriction_for(
                    #[trigger] table@[c]@[y],
                    board_line(board_table@, dir, y),
                    c,
                    words(*dictionary),
                ),
            decreases BOARD_SIZE - x,
        {
            let mut line: Vec<Square> = Vec::new();
            let mut j: usize = 0;
            while j < BOARD_SIZE
                invariant
                    board_table.wf(),
                    x < BOARD_SIZE,
                    j <= BOARD_SIZE,
                    line@ == board_line(board_table@, dir, x as int).take(j as int),
                decreases BOARD_SIZE - j,
            {
                let mut p = Position { row: 0, col: 0 };
                p.set_index(dir, j);
                p.set_index(dir.perp(), x);
                proof {
                    assert(p.row < BOARD_SIZE && p.col < BOARD_SIZE);
                    assert(board_table@[p.row as int].len() == BOARD_SIZE);
                }
                let sq = match board_table.get(p) {
                    Some(s) => *s,
                    None => Square::Empty,
                };
                line.push(sq);
                proof {
                    assert(line@ =~= board_line(board_table@, dir, x as int).take(j + 1));
                }
                j += 1;
            }
            proof {
                assert(line@ =~= board_line(board_table@, dir, x as int));
            }
            let mut restr: Vec<RestrictedSquare> = Vec::new();
            let mut k: usize = 0;
            while k < BOARD_SIZE
                invariant
                    k <= BOARD_SIZE,
                    restr@.len() == k,
                decreases BOARD_SIZE - k,
            {
                restr.push(RestrictedSquare::Empty(LetterSet::empty()));
                k += 1;
            }
            find_restrictions(line.as_slice(), restr.as_mut_slice(), dictionary);
            let mut c: usize = 0;
            while c < BOARD_SIZE
                invariant
                    x < BOARD_SIZE,
                    c <= BOARD_SIZE,
                    restr@.len() == BOARD_SIZE,
                    line@ == board_line(board_table@, dir, x as int),
                    forall|i: int| 0 <= i < BOARD_SIZE ==> restriction_for(#[trigger] restr@[i], line@, i, words(*dictionary)),
                    table@.len() == BOARD_SIZE,
                    forall|a: int| 0 <= a < BOARD_SIZE ==> (#[trigger] table@[a])@.len() == BOARD_SIZE,
                    forall|a: int, y: int| 0 <= a < BOARD_SIZE && 0 <= y < x ==> restriction_for(
                        #[trigger] table@[a]@[y],
                        board_line(board_table@, dir, y),
                        a,
                        words(*dictionary),
                    ),
                    forall|a: int| 0 <= a < c ==> restriction_for(
                        #[trigger] table@[a]@[x as int],
                        board_line(board_table@, dir, x as int),
                        a,
                        words(*dictionary),
                    ),
                decreases BOARD_SIZE - c,
            {
                proof {
                    assert(table@[c as int]@.len() == BOARD_SIZE);
                }
                table[c][x] = restr[c];
                c += 1;
            }
            x += 1;
        }
        let r = ConstrainedBoard { dir, table };
        proof {
            assert forall|c: int| 0 <= c < BOARD_SIZE implies #[trigger] r.rows()[c].len() == BOARD_SIZE by {
                assert(table@[c]@.len() == BOARD_SIZE);
            }
        }
        r
    }

    /// Whether no square holds a tile.
    pub fn is_empty(&self) -> (r: bool)
        requires
            self.wf(),
        ensures
            r == forall|c: int, x: int| 0 <= c < BOARD_SIZE && 0 <= x < BOARD_SIZE ==> !(#[trigger] self.rows()[c][x] is Filled),
    {
        let mut c: usize = 0;
        while c < BOARD_SIZE
            invariant
                self.wf(),
                c <= BOARD_SIZE,
                forall|a: int, x: int| 0 <= a < c && 0 <= x < BOARD_SIZE ==> !(#[trigger] self.rows()[a][x] is Filled),
            decreases BOARD_SIZE - c,
        {
            let mut x: usize = 0;
            while x < BOARD_SIZE
                invariant
                    self.wf(),
                    c < BOARD_SIZE,
                    x <= BOARD_SIZE,
                    forall|a: int, y: int| 0 <= a < c && 0 <= y < BOARD_SIZE ==> !(#[trigger] self.rows()[a][y] is Filled),
                    forall|y: int| 0 <= y < x ==> !(#[trigger] self.rows()[c as int][y] is Filled),
                decreases BOARD_SIZE - x,
            {
                proof {
                    assert(self.table@[c as int]@.len() == BOARD_SIZE) by {
                        assert(self.rows()[c as int].len() == BOARD_SIZE);
                    }
                }
                if let RestrictedSquare::Filled(_) = self.table[c][x] {
                    proof {
                        assert(self.rows()[c as int][x as int] is Filled);
                    }
                    return false;
                }
                x += 1;
            }
            c += 1;
        }
        true
    }
}

impl RestrictedSquare {
    /// An empty square that any letter `a` to `z` may fill (no cross word).
    pub fn is_unconstrained(&self) -> (r: bool)
        ensures
            r == (*self matches RestrictedSquare::Empty(set) && set@ == alphabet()),
    {
        match self {
            RestrictedSquare::Empty(set) => set.is_alphabet(),
            RestrictedSquare::Filled(_) => false,
        }
    }
}

/// The first square from `x` on that attaches a word: a tile, a square with a
/// cross word, or the centre `center` of an empty board; `BOARD_SIZE` if none.
pub open spec fn attach_end(row: Seq<RestrictedSquare>, x: int, center: int) -> int
    decreases BOARD_SIZE - x,
{
    if x >= BOARD_SIZE || x < 0 {
        BOARD_SIZE as int
    } else if x == center {
        x
    } else if row[x] matches RestrictedSquare::Empty(set) && set@ == alphabet() {
        attach_end(row, x + 1, center)
    } else {
        x
    }
}

/// A word can start at square `x` of the row: the square before it holds no
/// tile, and a square from `x` on attaches the word.
pub open spec fn is_anchor(row: Seq<RestrictedSquare>, x: int, center: int) -> bool {
    &&& 0 <= x < BOARD_SIZE
    &&& (x == 0 || row[x - 1] is Empty)
    &&& attach_end(row, x, center) < BOARD_SIZE
}

/// The length that a word from anchor `x` needs to be attached (at least 2).
pub open spec fn anchor_len(row: Seq<RestrictedSquare>, x: int, center: int) -> int {
    let l = attach_end(row, x, center) - x + 1;
    if l < 2 {
        2
    } else {
        l
    }
}

/// Where the centre lies on row `c` when the board is empty (-1 if nowhere).
pub open spec fn center_on(c: int, board_empty: bool) -> int {
    if board_empty && c == 7 {
        7
    } else {
        -1
    }
}

impl ConstrainedBoard {
    pub open spec fn all_empty(&self) -> bool {
        forall|c: int, x: int| 0 <= c < BOARD_SIZE && 0 <= x < BOARD_SIZE ==> !(#[trigger] self.rows()[c][x] is Filled)
    }

    /// `a` is the anchor at square `x` of row `c`.
    pub open spec fn anchor_is(&self, a: (Placement, &[RestrictedSquare], usize), c: int, x: int) -> bool {
        let row = self.rows()[c];
        let center = center_on(c, self.all_empty());
        &&& a.0 == Placement(Position { row: 0, col: 0 }.with_coord(self.direction(), c as usize).with_coord(self.direction().perp(), x as usize), self.direction().perp())
        &&& a.1@ == row.subrange(x, BOARD_SIZE as int)
        &&& a.2 == anchor_len(row, x, center)
    }

    /// `a` is an anchor of the board.
    pub open spec fn valid_anchor(&self, a: (Placement, &[RestrictedSquare], usize)) -> bool {
        exists|c: int, x: int|
            0 <= c < BOARD_SIZE && is_anchor(self.rows()[c], x, center_on(c, self.all_empty())) && self.anchor_is(a, c, x)
    }

    /// Where an anchor stands in reading order: rows first, then squares.
    pub open spec fn anchor_key(&self, a: (Placement, &[RestrictedSquare], usize)) -> int {
        a.0.0.coord(self.direction()) * BOARD_SIZE + a.0.0.coord(self.direction().perp())
    }

    /// Some entry of `out` is the anchor at square `x` of row `c`.
    pub open spec fn anchor_listed(&self, out: Seq<(Placement, &[RestrictedSquare], usize)>, c: int, x: int) -> bool {
        exists|k: int| 0 <= k < out.len() && self.anchor_is(out[k], c, x)
    }

    proof fn lemma_listed_push(
        &self,
        out: Seq<(Placement, &[RestrictedSquare], usize)>,
        e: (Placement, &[RestrictedSquare], usize),
        c: int,
        x: int,
    )
        requires
            self.anchor_listed(out, c, x),
        ensures
            self.anchor_listed(out.push(e), c, x),
    {
        let k = choose|k: int| 0 <= k < out.len() && self.anchor_is(out[k], c, x);
        assert(out.push(e)[k] == out[k]);
    }

    /// The anchors of the board, for moves across the direction: each one
    /// with the rest of its row and the length a word needs there; every
    /// anchor of the board is among them, once, rows in increasing order and
    /// squares in increasing order within a row.
    pub fn explore(&self) -> (r: Vec<(Placement, &[RestrictedSquare], usize)>)
        requires
            self.wf(),
        ensures
            forall|k: int| 0 <= k < r@.len() ==> self.valid_anchor(#[trigger] r@[k]),
            forall|c: int, x: int| 0 <= c < BOARD_SIZE && #[trigger] is_anchor(self.rows()[c], x, center_on(c, self.all_empty()))
                ==> self.anchor_listed(r@, c, x),
            forall|i: int, j: int| 0 <= i < j < r@.len() ==> self.anchor_key(r@[i]) < self.anchor_key(r@[j]),
    {
        let empty = self.is_empty();
        let dir = self.dir;
        let mut out: Vec<(Placement, &[RestrictedSquare], usize)> = Vec::new();
        let mut c: usize = 0;
        while c < BOARD_SIZE
            invariant
                self.wf(),
                dir == self.direction(),
                empty == self.all_empty(),
                c <= BOARD_SIZE,
                forall|k: int| 0 <= k < out@.len() ==> self.valid_anchor(#[trigger] out@[k]),
                forall|a: int, y: int| 0 <= a < c && #[trigger] is_anchor(self.rows()[a], y, center_on(a, self.all_empty()))
                    ==> self.anchor_listed(out@, a, y),
                forall|i: int, j: int| 0 <= i < j < out@.len() ==> self.anchor_key(out@[i]) < self.anchor_key(out@[j]),
                forall|i: int| 0 <= i < out@.len() ==> self.anchor_key(#[trigger] out@[i]) < c * BOARD_SIZE,
            decreases BOARD_SIZE - c,
        {
            let row = self.table[c].as_slice();
            proof {
                assert(row@ == self.rows()[c as int]);
            }
            let center: usize = if empty && c == 7 { 7 } else { BOARD_SIZE };
            let ghost gc: int = center_on(c as int, self.all_empty());
            let mut x: usize = 0;
            while x < BOARD_SIZE
                invariant
                    self.wf(),
                    dir == self.direction(),
                    empty == self.all_empty(),
                    c < BOARD_SIZE,
                    row@ == self.rows()[c as int],
                    gc == center_on(c as int, self.all_empty()),
                    center == (if gc < 0 { BOARD_SIZE as int } else { gc }),
                    x <= BOARD_SIZE,
                    forall|k: int| 0 <= k < out@.len() ==> self.valid_anchor(#[trigger] out@[k]),
                    forall|a: int, y: int| 0 <= a < c && #[trigger] is_anchor(self.rows()[a], y, center_on(a, self.all_empty()))
                        ==> self.anchor_listed(out@, a, y),
                    forall|y: int| 0 <= y < x && #[trigger] is_anchor(self.rows()[c as int], y, gc)
                        ==> self.anchor_listed(out@, c as int, y),
                    forall|i: int, j: int| 0 <= i < j < out@.len() ==> self.anchor_key(out@[i]) < self.anchor_key(out@[j]),
                    forall|i: int| 0 <= i < out@.len() ==> self.anchor_key(#[trigger] out@[i]) < c * BOARD_SIZE + x,
                decreases BOARD_SIZE - x,
            {
                let starts = x == 0 || matches!(row[x - 1], RestrictedSquare::Empty(_));
                if starts {
                    let mut e = x;
                    while e < BOARD_SIZE && e != center && row[e].is_unconstrained()
                        invariant
                            x <= e <= BOARD_SIZE,
                            x < BOARD_SIZE,
                            row@.len() == BOARD_SIZE,
                            center == (if gc < 0 { BOARD_SIZE as int } else { gc }),
                            attach_end(row@, e as int, gc) == attach_end(row@, x as int, gc),
                        decreases BOARD_SIZE - e,
                    {
                        e += 1;
                    }
                    if e < BOARD_SIZE {
                        let len = if e - x + 1 < 2 { 2 } else { e - x + 1 };
                        let (_, tail) = row.split_at(x);
                        let mut p = Position { row: 0, col: 0 };
                        p.set_index(dir, c);
                        p.set_index(dir.perp(), x);
                        let a = (Placement(p, dir.perp()), tail, len);
                        proof {
                            assert(self.anchor_is(a, c as int, x as int));
                            assert(is_anchor(self.rows()[c as int], x as int, gc));
                            assert(self.valid_anchor(a));
                        }
                        let ghost before = out@;
                        out.push(a);
                        proof {
                            assert forall|b: int, y: int| 0 <= b < c && #[trigger] is_anchor(self.rows()[b], y, center_on(b, self.all_empty()))
                                implies self.anchor_listed(out@, b, y) by {
                                self.lemma_listed_push(before, a, b, y);
                            }
                            assert forall|y: int| 0 <= y < x && #[trigger] is_anchor(self.rows()[c as int], y, gc)
                                implies self.anchor_listed(out@, c as int, y) by {
                                self.lemma_listed_push(before, a, c as int, y);
                            }
                            assert(out@[before.len() as int] == a);
                            assert(self.anchor_listed(out@, c as int, x as int));
                            assert(self.anchor_key(a) == c * BOARD_SIZE + x);
                            assert forall|i: int| 0 <= i < out@.len() implies self.anchor_key(#[trigger] out@[i]) < c * BOARD_SIZE + x + 1 by {
                                if i < before.len() {
                                    assert(out@[i] == before[i]);
                                }
                            }
                            assert forall|i: int, j: int| 0 <= i < j < out@.len() implies self.anchor_key(out@[i]) < self.anchor_key(out@[j]) by {
                                if j < before.len() {
                                    assert(out@[i] == before[i] && out@[j] == before[j]);
                                } else {
                                    assert(out@[i] == before[i]);
                                }
                            }
                        }
                    } else {
                        proof {
                            assert(!is_anchor(self.rows()[c as int], x as int, gc));
                        }
                    }
                } else {
                    proof {
                        assert(!is_anchor(self.rows()[c as int], x as int, gc));
                    }
                }
                x += 1;
            }
            c += 1;
        }
        out
    }
}

} // verus!

verus! {

/// Relies on rayon's `ParallelSliceMut::par_sort_unstable_by_key`: it
/// reorders the entries so that their scores increase.
#[verifier::external_body]
fn sort_by_score(v: &mut Vec<(Move, u32)>)
    ensures
        final(v)@.to_multiset() == old(v)@.to_multiset(),
        forall|i: int, j: int| 0 <= i < j < final(v)@.len() ==> final(v)@[i].1 <= final(v)@[j].1,
{
    v.par_sort_unstable_by_key(|e| e.1);
}

/// The words a move forms, the latest found first.
#[derive(Debug)]
pub enum StrList {
    Empty,
    Elem(Vec<u8>, Box<StrList>),
}

/// The words of a list, in order.
pub open spec fn strlist_words(l: StrList) -> Seq<Seq<u8>>
    decreases l,
{
    match l {
        StrList::Empty => Seq::empty(),
        StrList::Elem(w, rest) => seq![w@] + strlist_words(*rest),
    }
}

fn copy_bytes(w: &Vec<u8>) -> (r: Vec<u8>)
    ensures
        r@ == w@,
{
    let mut r: Vec<u8> = Vec::new();
    let mut i: usize = 0;
    while i < w.len()
        invariant
            i <= w@.len(),
            r@ == w@.take(i as int),
        decreases w@.len() - i,
    {
        r.push(w[i]);
        proof {
            assert(w@.take(i + 1) =~= w@.take(i as int).push(w@[i as int]));
        }
        i += 1;
    }
    proof {
        assert(w@.take(w@.len() as int) =~= w@);
    }
    r
}

impl StrList {
    fn collect(&self, acc: &mut Vec<Vec<u8>>)
        ensures
            final(acc)@.len() == old(acc)@.len() + strlist_words(*self).len(),
            forall|k: int| 0 <= k < old(acc)@.len() ==> (#[trigger] final(acc)@[k])@ == old(acc)@[k]@,
            forall|k: int| 0 <= k < strlist_words(*self).len() ==> final(acc)@[old(acc)@.len() + k]@ == #[trigger] strlist_words(*self)[k],
        decreases self,
    {
        match self {
            StrList::Empty => {},
            StrList::Elem(w, rest) => {
                acc.push(copy_bytes(w));
                rest.collect(acc);
            },
        }
    }

    /// The words, in order.
    pub fn to_vec(&self) -> (r: Vec<Vec<u8>>)
        ensures
            r@.len() == strlist_words(*self).len(),
            forall|k: int| 0 <= k < r@.len() ==> (#[trigger] r@[k])@ == strlist_words(*self)[k],
    {
        let mut acc: Vec<Vec<u8>> = Vec::new();
        self.collect(&mut acc);
        acc
    }
}

/// What the evaluation found: each move with the words it forms, and each
/// move with its score, by increasing score.
pub struct EvaluationResult {
    pub words: Vec<(Move, StrList)>,
    pub score: Vec<(Move, u32)>,
}

/// Word `v` is among the words recorded for move `mm`.
pub open spec fn words_of(found: Seq<(Move, Vec<Vec<u8>>)>, mm: MoveView, v: Seq<u8>) -> bool {
    exists|i: int, x: int| 0 <= i < found.len() && found[i].0@ == mm && 0 <= x < found[i].1@.len() && #[trigger] found[i].1@[x]@ == v
}

/// `m` is the move of one of the entries.
pub open spec fn has_move<T>(entries: Seq<(Move, T)>, m: MoveView) -> bool {
    exists|i: int| 0 <= i < entries.len() && entries[i].0@ == m
}

/// The score of a move with the bonus for playing seven tiles.
pub open spec fn total_score<S: LetterScoring, B: BoardBonus>(
    t: Seq<Seq<Square>>,
    rules: crate::score_rules::ScoreRules<S, B>,
    m: MoveView,
) -> u32 {
    let bonus: int = match m {
        MoveView::MultiLetters(_, _, others) => if others.len() == 6 {
            rules.extra_bonus as int
        } else {
            0
        },
        MoveView::SingleLetter(_, _) => 0,
    };
    capped(move_score(t, rules, m) + bonus)
}

fn same_bytes(a: &Vec<u8>, b: &Vec<u8>) -> (r: bool)
    ensures
        r == (a@ == b@),
{
    if a.len() != b.len() {
        return false;
    }
    let mut i: usize = 0;
    while i < a.len()
        invariant
            a@.len() == b@.len(),
            i <= a@.len(),
            forall|k: int| 0 <= k < i ==> a@[k] == b@[k],
        decreases a@.len() - i,
    {
        if a[i] != b[i] {
            return false;
        }
        i += 1;
    }
    proof {
        assert(a@ =~= b@);
    }
    true
}

/// Records that move `m` forms `word`: a new entry for a new move, else the
/// word joins the move's words (once).
fn record(found: &mut Vec<(Move, Vec<Vec<u8>>)>, m: Move, word: &Vec<u8>, ws: Ghost<Set<Seq<u8>>>)
    requires
        forall|i: int, j: int| 0 <= i < j < old(found)@.len() ==> old(found)@[i].0@ != old(found)@[j].0@,
        forall|i: int, k: int| 0 <= i < old(found)@.len() && 0 <= k < old(found)@[i].1@.len() ==> ws@.contains(#[trigger] old(found)@[i].1@[k]@),
        ws@.contains(word@),
        forall|i: int, a: int, b: int| 0 <= i < old(found)@.len() && 0 <= a < b < old(found)@[i].1@.len() ==> old(found)@[i].1@[a]@ != old(found)@[i].1@[b]@,
    ensures
        forall|i: int, j: int| 0 <= i < j < final(found)@.len() ==> final(found)@[i].0@ != final(found)@[j].0@,
        forall|i: int, k: int| 0 <= i < final(found)@.len() && 0 <= k < final(found)@[i].1@.len() ==> ws@.contains(#[trigger] final(found)@[i].1@[k]@),
        forall|i: int, a: int, b: int| 0 <= i < final(found)@.len() && 0 <= a < b < final(found)@[i].1@.len() ==> final(found)@[i].1@[a]@ != final(found)@[i].1@[b]@,
        forall|mm: MoveView| has_move(old(found)@, mm) ==> has_move(final(found)@, mm),
        has_move(final(found)@, m@),
        forall|k: int| 0 <= k < final(found)@.len() ==> (#[trigger] final(found)@[k]).0@ == m@ || has_move(old(found)@, final(found)@[k].0@),
        forall|mm: MoveView, v: Seq<u8>| #[trigger] words_of(final(found)@, mm, v) == (words_of(old(found)@, mm, v) || (mm == m@ && v == word@)),
{
    let ghost f0 = found@;
    let mut i: usize = 0;
    while i < found.len()
        invariant
            found@ == f0,
            f0 == old(found)@,
            forall|a: int, b: int| 0 <= a < b < old(found)@.len() ==> old(found)@[a].0@ != old(found)@[b].0@,
            forall|a: int, k: int| 0 <= a < old(found)@.len() && 0 <= k < old(found)@[a].1@.len() ==> ws@.contains(#[trigger] old(found)@[a].1@[k]@),
            ws@.contains(word@),
            forall|i: int, a: int, b: int| 0 <= i < old(found)@.len() && 0 <= a < b < old(found)@[i].1@.len() ==> old(found)@[i].1@[a]@ != old(found)@[i].1@[b]@,
            i <= found@.len(),
            forall|k: int| 0 <= k < i ==> found@[k].0@ != m@,
        decreases found@.len() - i,
    {
        if found[i].0 == m {
            let mut present = false;
            let mut k: usize = 0;
            while k < found[i].1.len()
                invariant
                    found@ == f0,
                    f0 == old(found)@,
                    forall|a: int, b: int| 0 <= a < b < old(found)@.len() ==> old(found)@[a].0@ != old(found)@[b].0@,
                    forall|a: int, k: int| 0 <= a < old(found)@.len() && 0 <= k < old(found)@[a].1@.len() ==> ws@.contains(#[trigger] old(found)@[a].1@[k]@),
                    ws@.contains(word@),
                    forall|i: int, a: int, b: int| 0 <= i < old(found)@.len() && 0 <= a < b < old(found)@[i].1@.len() ==> old(found)@[i].1@[a]@ != old(found)@[i].1@[b]@,
                    i < found@.len(),
                    k <= found@[i as int].1@.len(),
                    present == exists|x: int| 0 <= x < k && found@[i as int].1@[x]@ == word@,
                decreases found@[i as int].1@.len() - k,
            {
                if same_bytes(&found[i].1[k], word) {
                    present = true;
                }
                proof {
                    if found@[i as int].1@[k as int]@ == word@ {
                        assert(exists|x: int| 0 <= x < k + 1 && found@[i as int].1@[x]@ == word@);
                    }
                }
                k += 1;
            }
            if !present {
                let w = copy_bytes(word);
                let mut entry = found.remove(i);
                let ghost e0 = entry;
                entry.1.push(w);
                let ghost e1 = entry;
                found.insert(i, entry);
                proof {
                    assert(found@ =~= f0.update(i as int, e1));
                    assert(e1.0 == e0.0 && e0 == f0[i as int]);
                    assert(e1.1@ == e0.1@.push(w));
                    assert forall|a: int| 0 <= a < found@.len() implies (#[trigger] found@[a]).0 == f0[a].0 by {}
                    assert forall|x: int, y: int| 0 <= x < y < found@.len() implies found@[x].0@ != found@[y].0@ by {
                        assert(found@[x].0 == old(found)@[x].0);
                        assert(found@[y].0 == old(found)@[y].0);
                        assert(old(found)@[x].0@ != old(found)@[y].0@);
                    }
                    assert forall|a: int, k: int| 0 <= a < found@.len() && 0 <= k < found@[a].1@.len() implies ws@.contains(#[trigger] found@[a].1@[k]@) by {
                        if a != i {
                            assert(found@[a] == f0[a]);
                            assert(ws@.contains(old(found)@[a].1@[k]@));
                        } else if k < e0.1@.len() {
                            assert(found@[a].1@[k] == e0.1@[k]);
                            assert(ws@.contains(old(found)@[a].1@[k]@));
                        } else {
                            assert(found@[a].1@[k]@ == word@);
                        }
                    }
                    assert forall|a: int, x: int, y: int| 0 <= a < found@.len() && 0 <= x < y < found@[a].1@.len() implies found@[a].1@[x]@ != found@[a].1@[y]@ by {
                        if a != i {
                            assert(found@[a] == old(found)@[a]);
                        } else {
                            assert(found@[a].1@[x] == e0.1@[x]);
                            if y < e0.1@.len() {
                                assert(found@[a].1@[y] == e0.1@[y]);
                                assert(old(found)@[a].1@[x]@ != old(found)@[a].1@[y]@);
                            } else {
                                assert(found@[a].1@[y]@ == word@);
                                assert(e0.1@[x] == old(found)@[a].1@[x]);
                            }
                        }
                    }
                }
            }
            proof {
                assert forall|k: int| 0 <= k < found@.len() implies (#[trigger] found@[k]).0 == f0[k].0 by {
                    if k == i {
                    }
                }
                assert forall|mm: MoveView| has_move(old(found)@, mm) implies has_move(found@, mm) by {
                    let k = choose|k: int| 0 <= k < old(found)@.len() && old(found)@[k].0@ == mm;
                    assert(found@[k].0@ == mm);
                }
                assert(found@[i as int].0@ == m@);
                assert forall|k: int| 0 <= k < found@.len() implies (#[trigger] found@[k]).0@ == m@ || has_move(old(found)@, found@[k].0@) by {
                    assert(old(found)@[k].0@ == found@[k].0@);
                }
                assert forall|mm: MoveView, v: Seq<u8>| #[trigger] words_of(found@, mm, v) == (words_of(old(found)@, mm, v) || (mm == m@ && v == word@)) by {
                    if present {
                        if mm == m@ && v == word@ {
                            let x = choose|x: int| 0 <= x < k && f0[i as int].1@[x]@ == word@;
                            assert(found@[i as int].1@[x]@ == v);
                        }
                        if words_of(old(found)@, mm, v) {
                            let (a, x) = choose|a: int, x: int| 0 <= a < f0.len() && f0[a].0@ == mm && 0 <= x < f0[a].1@.len() && #[trigger] f0[a].1@[x]@ == v;
                            assert(found@[a].1@[x]@ == v);
                        }
                        if words_of(found@, mm, v) {
                            let (a, x) = choose|a: int, x: int| 0 <= a < found@.len() && found@[a].0@ == mm && 0 <= x < found@[a].1@.len() && #[trigger] found@[a].1@[x]@ == v;
                            assert(f0[a].1@[x]@ == v);
                        }
                    } else {
                        let e0 = f0[i as int];
                        if words_of(found@, mm, v) {
                            let (a, x) = choose|a: int, x: int| 0 <= a < found@.len() && found@[a].0@ == mm && 0 <= x < found@[a].1@.len() && #[trigger] found@[a].1@[x]@ == v;
                            if a != i || x < e0.1@.len() {
                                assert(found@[a].1@[x] == f0[a].1@[x]);
                                assert(f0[a].1@[x]@ == v);
                            } else {
                                assert(found@[a].0@ == m@);
                            }
                        }
                        if words_of(old(found)@, mm, v) {
                            let (a, x) = choose|a: int, x: int| 0 <= a < f0.len() && f0[a].0@ == mm && 0 <= x < f0[a].1@.len() && #[trigger] f0[a].1@[x]@ == v;
                            assert(found@[a].1@[x] == f0[a].1@[x]);
                            assert(found@[a].1@[x]@ == v);
                        }
                        if mm == m@ && v == word@ {
                            assert(found@[i as int].1@[e0.1@.len() as int]@ == v);
                        }
                    }
                }
            }
            return;
        }
        i += 1;
    }
    let w = copy_bytes(word);
    let mut list: Vec<Vec<u8>> = Vec::new();
    list.push(w);
    let ghost mv = m@;
    found.push((m, list));
    proof {
        assert(found@[found@.len() - 1].0@ == mv);
        assert forall|mm: MoveView| has_move(old(found)@, mm) implies has_move(found@, mm) by {
            let k = choose|k: int| 0 <= k < old(found)@.len() && old(found)@[k].0@ == mm;
            assert(found@[k] == old(found)@[k]);
        }
        assert forall|k: int| 0 <= k < found@.len() implies (#[trigger] found@[k]).0@ == mv || has_move(old(found)@, found@[k].0@) by {
            if k < f0.len() {
                assert(found@[k] == old(found)@[k]);
            }
        }
        assert forall|mm: MoveView, v: Seq<u8>| #[trigger] words_of(found@, mm, v) == (words_of(old(found)@, mm, v) || (mm == mv && v == word@)) by {
            let last = f0.len() as int;
            if words_of(found@, mm, v) {
                let (a, x) = choose|a: int, x: int| 0 <= a < found@.len() && found@[a].0@ == mm && 0 <= x < found@[a].1@.len() && #[trigger] found@[a].1@[x]@ == v;
                if a < last {
                    assert(found@[a] == f0[a]);
                    assert(f0[a].1@[x]@ == v);
                }
            }
            if words_of(old(found)@, mm, v) {
                let (a, x) = choose|a: int, x: int| 0 <= a < f0.len() && f0[a].0@ == mm && 0 <= x < f0[a].1@.len() && #[trigger] f0[a].1@[x]@ == v;
                assert(found@[a] == f0[a]);
                assert(found@[a].1@[x]@ == v);
            }
            if mm == mv && v == word@ {
                assert(found@[last].1@[0]@ == v);
            }
        }
        assert forall|a: int, x: int, y: int| 0 <= a < found@.len() && 0 <= x < y < found@[a].1@.len() implies found@[a].1@[x]@ != found@[a].1@[y]@ by {
            if a < f0.len() {
                assert(found@[a] == old(found)@[a]);
            }
        }
        assert forall|a: int, k: int| 0 <= a < found@.len() && 0 <= k < found@[a].1@.len() implies ws@.contains(#[trigger] found@[a].1@[k]@) by {
            if a < f0.len() {
                assert(found@[a] == f0[a]);
            }
        }
    }
}

/// The moves found so far: distinct, each with distinct words of the lexicon.
pub open spec fn found_ok(found: Seq<(Move, Vec<Vec<u8>>)>, ws: Set<Seq<u8>>) -> bool {
    &&& forall|i: int, j: int| 0 <= i < j < found.len() ==> found[i].0@ != found[j].0@
    &&& forall|i: int, k: int| 0 <= i < found.len() && 0 <= k < found[i].1@.len() ==> ws.contains(#[trigger] found[i].1@[k]@)
    &&& forall|i: int, a: int, b: int| 0 <= i < found.len() && 0 <= a < b < found[i].1@.len() ==> found[i].1@[a]@ != found[i].1@[b]@
}

/// Records every move from the anchor at `place` (the rest of its line
/// `line`, needing `min_len` squares) with the word it plays.
fn record_anchor(
    found: &mut Vec<(Move, Vec<Vec<u8>>)>,
    place: Placement,
    line: &[RestrictedSquare],
    min_len: usize,
    tray: &TrayRemaining,
    multi: bool,
    dict: &fst::Set<Vec<u8>>,
)
    requires
        found_ok(old(found)@, words(*dict)),
        line@.len() <= BOARD_SIZE,
        place.0.coord(place.1) < BOARD_SIZE,
    ensures
        found_ok(final(found)@, words(*dict)),
        forall|mm: MoveView| has_move(old(found)@, mm) ==> has_move(final(found)@, mm),
        forall|mm: MoveView| #[trigger] moves_at(place, line@, min_len as int, tray@, multi, words(*dict), mm) ==> has_move(final(found)@, mm),
        forall|k: int| 0 <= k < final(found)@.len() ==> has_move(old(found)@, (#[trigger] final(found)@[k]).0@)
            || moves_at(place, line@, min_len as int, tray@, multi, words(*dict), final(found)@[k].0@),
        forall|mm: MoveView, v: Seq<u8>| #[trigger] words_of(final(found)@, mm, v) ==> words_of(old(found)@, mm, v)
            || word_at(place, line@, min_len as int, tray@, multi, words(*dict), mm, v),
        forall|mm: MoveView, v: Seq<u8>| words_of(old(found)@, mm, v) ==> #[trigger] words_of(final(found)@, mm, v),
        forall|mm: MoveView, v: Seq<u8>| #[trigger] word_at(place, line@, min_len as int, tray@, multi, words(*dict), mm, v)
            ==> words_of(final(found)@, mm, v),
{
    let ghost ws = words(*dict);
    let ghost f0 = found@;
    let automaton = ScrabbleAutomata { line, tray: *tray, min_len, wildcards_have_multi_meaning: multi };
    let ghost start = automaton.start_view();
    let results = search_playable_words(dict, automaton);
    let mut m: usize = 0;
    while m < results.len()
        invariant
            m <= results@.len(),
            ws == words(*dict),
            f0 == old(found)@,
            line@.len() <= BOARD_SIZE,
            place.0.coord(place.1) < BOARD_SIZE,
            start == (StateView { position: 0, wildcards: Seq::empty(), tray: tray@ }),
            forall|i: int| 0 <= i < results@.len() ==> {
                &&& ws.contains(#[trigger] results@[i].0@)
                &&& state_view(results@[i].1) == run(line@, multi, start, results@[i].0@)
                &&& word_accepted(line@, min_len as int, tray@, multi, results@[i].0@)
            },
            forall|w: Seq<u8>| #[trigger] ws.contains(w) && word_accepted(line@, min_len as int, tray@, multi, w)
                ==> exists|i: int| 0 <= i < results@.len() && results@[i].0@ == w,
            found_ok(found@, ws),
            forall|mm: MoveView| has_move(f0, mm) ==> has_move(found@, mm),
            forall|k: int| 0 <= k < found@.len() ==> has_move(f0, (#[trigger] found@[k]).0@)
                || moves_at(place, line@, min_len as int, tray@, multi, ws, found@[k].0@),
            forall|mm: MoveView, v: Seq<u8>| #[trigger] words_of(found@, mm, v) ==> words_of(f0, mm, v)
                || word_at(place, line@, min_len as int, tray@, multi, ws, mm, v),
            forall|mm: MoveView, v: Seq<u8>| words_of(f0, mm, v) ==> #[trigger] words_of(found@, mm, v),
            forall|i: int, mm: MoveView| 0 <= i < m && #[trigger] word_at(place, line@, min_len as int, tray@, multi, ws, mm, results@[i].0@)
                ==> words_of(found@, mm, results@[i].0@),
            forall|i: int, b: Seq<bool>| 0 <= i < m && valid_blanks(line@, results@[i].0@,
                inter_of(wildcards_after(line@, tray@, multi, results@[i].0@), results@[i].0@.len() as int),
                missing_of(wildcards_after(line@, tray@, multi, results@[i].0@)), b)
                && (#[trigger] move_from(place, line@, results@[i].0@,
                inter_of(wildcards_after(line@, tray@, multi, results@[i].0@), results@[i].0@.len() as int), b)) is Some
                ==> has_move(found@, move_from(place, line@, results@[i].0@,
                inter_of(wildcards_after(line@, tray@, multi, results@[i].0@), results@[i].0@.len() as int), b)->0),
        decreases results@.len() - m,
    {
        let word = &results[m].0;
        let ghost w = word@;
        let ghost wa = wildcards_after(line@, tray@, multi, w);
        let ghost f1 = found@;
        proof {
            word_finder::lemma_read_word_fits_line(line@, multi, start, w);
        }
        let n = word.len();
        match &results[m].1 {
            Some(st) => {
                let mut inter: Vec<bool> = Vec::new();
                let mut k: usize = 0;
                while k < n
                    invariant
                        k <= n,
                        inter@.len() == k,
                        forall|j: int| 0 <= j < k ==> !#[trigger] inter@[j],
                    decreases n - k,
                {
                    inter.push(false);
                    k += 1;
                }
                let mut missing = [0u8; 256];
                proof {
                    assert(st.wildcards@ == wa);
                }
                read_assignments(&st.wildcards, &mut inter, &mut missing);
                proof {
                    assert(inter@ =~= inter_of(wa, n as int));
                    assert forall|b: int| 0 <= b < 256 implies missing@[b] == missing_of(wa)[b] by {
                        assert(missing@[(b as u8) as int] == at_most_255(0 + missing_count(wa, b as u8)));
                    }
                    assert(missing@ =~= missing_of(wa));
                }
                let mut moves: Vec<Move> = Vec::new();
                generate_moves_for_word(place, line, word.as_slice(), inter.as_slice(), &missing, &mut moves);
                let mut q: usize = 0;
                while q < moves.len()
                    invariant
                        q <= moves@.len(),
                        ws == words(*dict),
                        ws.contains(w),
                        w == word@,
                        found_ok(found@, ws),
                        forall|mm: MoveView| has_move(f1, mm) ==> has_move(found@, mm),
                        forall|mm: MoveView| has_move(f0, mm) ==> has_move(found@, mm),
                        forall|k: int| 0 <= k < found@.len() ==> has_move(f0, (#[trigger] found@[k]).0@)
                            || moves_at(place, line@, min_len as int, tray@, multi, ws, found@[k].0@),
                        forall|j: int| 0 <= j < q ==> has_move(found@, (#[trigger] moves@[j])@),
                        forall|j: int| 0 <= j < q ==> words_of(found@, (#[trigger] moves@[j])@, w),
                        forall|mm: MoveView, v: Seq<u8>| #[trigger] words_of(found@, mm, v) ==> words_of(f0, mm, v)
                            || word_at(place, line@, min_len as int, tray@, multi, ws, mm, v),
                        forall|mm: MoveView, v: Seq<u8>| words_of(f1, mm, v) ==> #[trigger] words_of(found@, mm, v),
                        forall|mm: MoveView, v: Seq<u8>| words_of(f0, mm, v) ==> #[trigger] words_of(found@, mm, v),
                        forall|k: int| 0 <= k < moves@.len() ==> blank_move(place, line@, w, inter@, missing@, Seq::empty(), (#[trigger] moves@[k])@),
                        word_accepted(line@, min_len as int, tray@, multi, w),
                        inter@ == inter_of(wa, w.len() as int),
                        missing@ == missing_of(wa),
                        wa == wildcards_after(line@, tray@, multi, w),
                    decreases moves@.len() - q,
                {
                    let ghost f2 = found@;
                    let mv = moves[q].clone();
                    proof {
                        let b = choose|b: Seq<bool>| valid_blanks(line@, w, inter@, missing@, b) && b.take(0) == Seq::<bool>::empty()
                            && move_from(place, line@, w, inter@, b) == Some(moves@[q as int]@);
                        assert(moves_at(place, line@, min_len as int, tray@, multi, ws, mv@));
                        assert(word_at(place, line@, min_len as int, tray@, multi, ws, mv@, w));
                    }
                    record(found, mv, word, Ghost(ws));
                    proof {
                        assert forall|mm: MoveView| has_move(f2, mm) implies has_move(found@, mm) by {}
                        assert forall|j: int| 0 <= j < q + 1 implies words_of(found@, (#[trigger] moves@[j])@, w) by {
                            if j < q {
                                assert(words_of(f2, moves@[j]@, w));
                            }
                        }
                        assert forall|mm: MoveView, v: Seq<u8>| #[trigger] words_of(found@, mm, v) implies words_of(f0, mm, v)
                            || word_at(place, line@, min_len as int, tray@, multi, ws, mm, v) by {
                            if !(mm == mv@ && v == w) {
                                assert(words_of(f2, mm, v));
                            }
                        }
                        assert forall|mm: MoveView, v: Seq<u8>| words_of(f1, mm, v) implies #[trigger] words_of(found@, mm, v) by {
                            assert(words_of(f2, mm, v));
                        }
                        assert forall|mm: MoveView, v: Seq<u8>| words_of(f0, mm, v) implies #[trigger] words_of(found@, mm, v) by {
                            assert(words_of(f2, mm, v));
                        }
                        assert forall|k: int| 0 <= k < found@.len() implies has_move(f0, (#[trigger] found@[k]).0@)
                            || moves_at(place, line@, min_len as int, tray@, multi, ws, found@[k].0@) by {
                            if found@[k].0@ != mv@ {
                                let j = choose|j: int| 0 <= j < f2.len() && f2[j].0@ == found@[k].0@;
                                assert(f2[j].0@ == found@[k].0@);
                            }
                        }
                    }
                    q += 1;
                }
                proof {
                    assert forall|i: int, b: Seq<bool>| 0 <= i < m + 1 && valid_blanks(line@, results@[i].0@,
                        inter_of(wildcards_after(line@, tray@, multi, results@[i].0@), results@[i].0@.len() as int),
                        missing_of(wildcards_after(line@, tray@, multi, results@[i].0@)), b)
                        && (#[trigger] move_from(place, line@, results@[i].0@,
                        inter_of(wildcards_after(line@, tray@, multi, results@[i].0@), results@[i].0@.len() as int), b)) is Some
                        implies has_move(found@, move_from(place, line@, results@[i].0@,
                        inter_of(wildcards_after(line@, tray@, multi, results@[i].0@), results@[i].0@.len() as int), b)->0) by {
                        if i == m {
                            let k = choose|k: int| 0 <= k < moves@.len() && Some(moves@[k]@) == move_from(place, line@, w, inter@, b);
                            assert(has_move(found@, moves@[k]@));
                        }
                    }
                    assert forall|i: int, mm: MoveView| 0 <= i < m + 1 && #[trigger] word_at(place, line@, min_len as int, tray@, multi, ws, mm, results@[i].0@)
                        implies words_of(found@, mm, results@[i].0@) by {
                        if i == m {
                            let b = choose|b: Seq<bool>| valid_blanks(line@, w, inter_of(wa, w.len() as int), missing_of(wa), b)
                                && #[trigger] move_from(place, line@, w, inter_of(wa, w.len() as int), b) == Some(mm);
                            let k = choose|k: int| 0 <= k < moves@.len() && Some(moves@[k]@) == move_from(place, line@, w, inter@, b);
                            assert(words_of(found@, moves@[k]@, w));
                        } else {
                            assert(words_of(f1, mm, results@[i].0@));
                        }
                    }
                }
            },
            None => {
                proof {
                    assert(false);
                }
            },
        }
        m += 1;
    }
    proof {
        assert forall|mm: MoveView| #[trigger] moves_at(place, line@, min_len as int, tray@, multi, ws, mm) implies has_move(found@, mm) by {
            let (w, b) = choose|w: Seq<u8>, b: Seq<bool>| #[trigger] ws.contains(w) && word_accepted(line@, min_len as int, tray@, multi, w)
                && valid_blanks(line@, w, inter_of(wildcards_after(line@, tray@, multi, w), w.len() as int), missing_of(wildcards_after(line@, tray@, multi, w)), b)
                && #[trigger] move_from(place, line@, w, inter_of(wildcards_after(line@, tray@, multi, w), w.len() as int), b) == Some(mm);
            let i = choose|i: int| 0 <= i < results@.len() && results@[i].0@ == w;
            assert(move_from(place, line@, results@[i].0@, inter_of(wildcards_after(line@, tray@, multi, results@[i].0@), results@[i].0@.len() as int), b) == Some(mm));
        }
        assert forall|mm: MoveView, v: Seq<u8>| #[trigger] word_at(place, line@, min_len as int, tray@, multi, ws, mm, v) implies words_of(found@, mm, v) by {
            let i = choose|i: int| 0 <= i < results@.len() && results@[i].0@ == v;
            assert(word_at(place, line@, min_len as int, tray@, multi, ws, mm, results@[i].0@));
        }
    }
}

/// Records the moves from each of `anchors`, anchors of the board `cb`.
fn record_board(
    found: &mut Vec<(Move, Vec<Vec<u8>>)>,
    cb: &ConstrainedBoard,
    anchors: &Vec<(Placement, &[RestrictedSquare], usize)>,
    tray: &TrayRemaining,
    multi: bool,
    dict: &fst::Set<Vec<u8>>,
    t: Ghost<Seq<Seq<Square>>>,
)
    requires
        cb.wf(),
        rows_for(cb.rows(), t@, cb.direction(), words(*dict)),
        forall|k: int| 0 <= k < anchors@.len() ==> cb.valid_anchor(#[trigger] anchors@[k]),
        found_ok(old(found)@, words(*dict)),
        forall|k: int| 0 <= k < old(found)@.len() ==> found_move(t@, tray@, multi, words(*dict), (#[trigger] old(found)@[k]).0@),
        forall|mm: MoveView, v: Seq<u8>| #[trigger] words_of(old(found)@, mm, v) ==> found_word(t@, tray@, multi, words(*dict), mm, v),
    ensures
        forall|mm: MoveView, v: Seq<u8>| #[trigger] words_of(final(found)@, mm, v) ==> found_word(t@, tray@, multi, words(*dict), mm, v),
        forall|mm: MoveView, v: Seq<u8>| words_of(old(found)@, mm, v) ==> #[trigger] words_of(final(found)@, mm, v),
        forall|k: int, mm: MoveView, v: Seq<u8>| 0 <= k < anchors@.len() && #[trigger] word_at(anchors@[k].0, anchors@[k].1@, anchors@[k].2 as int, tray@, multi, words(*dict), mm, v)
            ==> words_of(final(found)@, mm, v),
        found_ok(final(found)@, words(*dict)),
        forall|k: int| 0 <= k < final(found)@.len() ==> found_move(t@, tray@, multi, words(*dict), (#[trigger] final(found)@[k]).0@),
        forall|mm: MoveView| has_move(old(found)@, mm) ==> has_move(final(found)@, mm),
        forall|k: int, mm: MoveView| 0 <= k < anchors@.len() && #[trigger] moves_at(anchors@[k].0, anchors@[k].1@, anchors@[k].2 as int, tray@, multi, words(*dict), mm)
            ==> has_move(final(found)@, mm),
{
    let ghost ws = words(*dict);
    let mut a: usize = 0;
    while a < anchors.len()
        invariant
            a <= anchors@.len(),
            ws == words(*dict),
            cb.wf(),
            rows_for(cb.rows(), t@, cb.direction(), ws),
            forall|k: int| 0 <= k < anchors@.len() ==> cb.valid_anchor(#[trigger] anchors@[k]),
            found_ok(found@, ws),
            forall|k: int| 0 <= k < found@.len() ==> found_move(t@, tray@, multi, ws, (#[trigger] found@[k]).0@),
            forall|mm: MoveView| has_move(old(found)@, mm) ==> has_move(found@, mm),
            forall|k: int, mm: MoveView| 0 <= k < a && #[trigger] moves_at(anchors@[k].0, anchors@[k].1@, anchors@[k].2 as int, tray@, multi, ws, mm)
                ==> has_move(found@, mm),
            forall|mm: MoveView, v: Seq<u8>| #[trigger] words_of(found@, mm, v) ==> found_word(t@, tray@, multi, ws, mm, v),
            forall|mm: MoveView, v: Seq<u8>| words_of(old(found)@, mm, v) ==> #[trigger] words_of(found@, mm, v),
            forall|k: int, mm: MoveView, v: Seq<u8>| 0 <= k < a && #[trigger] word_at(anchors@[k].0, anchors@[k].1@, anchors@[k].2 as int, tray@, multi, ws, mm, v)
                ==> words_of(found@, mm, v),
        decreases anchors@.len() - a,
    {
        let (place, line, min_len) = anchors[a];
        let ghost an = anchors@[a as int];
        let ghost f0 = found@;
        proof {
            assert(cb.valid_anchor(an));
            let (c, x) = choose|c: int, x: int|
                0 <= c < BOARD_SIZE && is_anchor(cb.rows()[c], x, center_on(c, cb.all_empty())) && cb.anchor_is(an, c, x);
            assert(line@.len() <= BOARD_SIZE);
            assert(place.0.coord(place.1) == x);
        }
        record_anchor(found, place, line, min_len, tray, multi, dict);
        proof {
            assert forall|k: int| 0 <= k < found@.len() implies found_move(t@, tray@, multi, ws, (#[trigger] found@[k]).0@) by {
                if has_move(f0, found@[k].0@) {
                    let j = choose|j: int| 0 <= j < f0.len() && f0[j].0@ == found@[k].0@;
                    assert(found_move(t@, tray@, multi, ws, f0[j].0@));
                } else {
                    let (c, x) = choose|c: int, x: int|
                        0 <= c < BOARD_SIZE && is_anchor(cb.rows()[c], x, center_on(c, cb.all_empty())) && cb.anchor_is(an, c, x);
                    let rows = cb.rows();
                    assert(cb.all_empty() == rows_empty(rows));
                    assert(an.0 == anchor_place(cb.direction(), c, x));
                    assert(moves_at(anchor_place(cb.direction(), c, x), rows[c].subrange(x, BOARD_SIZE as int),
                        anchor_len(rows[c], x, center_on(c, rows_empty(rows))), tray@, multi, ws, found@[k].0@));
                    assert(rows_for(rows, t@, cb.direction(), ws));
                }
            }
            assert forall|k: int, mm: MoveView| 0 <= k < a + 1 && #[trigger] moves_at(anchors@[k].0, anchors@[k].1@, anchors@[k].2 as int, tray@, multi, ws, mm)
                implies has_move(found@, mm) by {
                if k < a {
                    assert(has_move(f0, mm));
                }
            }
            assert forall|mm: MoveView, v: Seq<u8>| #[trigger] words_of(found@, mm, v) implies found_word(t@, tray@, multi, ws, mm, v) by {
                if !words_of(f0, mm, v) {
                    let (c, x) = choose|c: int, x: int|
                        0 <= c < BOARD_SIZE && is_anchor(cb.rows()[c], x, center_on(c, cb.all_empty())) && cb.anchor_is(an, c, x);
                    let rows = cb.rows();
                    assert(cb.all_empty() == rows_empty(rows));
                    assert(an.0 == anchor_place(cb.direction(), c, x));
                    assert(word_at(anchor_place(cb.direction(), c, x), rows[c].subrange(x, BOARD_SIZE as int),
                        anchor_len(rows[c], x, center_on(c, rows_empty(rows))), tray@, multi, ws, mm, v));
                    assert(rows_for(rows, t@, cb.direction(), ws));
                }
            }
            assert forall|k: int, mm: MoveView, v: Seq<u8>| 0 <= k < a + 1 && #[trigger] word_at(anchors@[k].0, anchors@[k].1@, anchors@[k].2 as int, tray@, multi, ws, mm, v)
                implies words_of(found@, mm, v) by {
                if k < a {
                    assert(words_of(f0, mm, v));
                }
            }
            assert forall|mm: MoveView, v: Seq<u8>| words_of(old(found)@, mm, v) implies #[trigger] words_of(found@, mm, v) by {
                assert(words_of(f0, mm, v));
            }
        }
        a += 1;
    }
}

/// Finds every move that the tray allows on the board, the words each
/// forms, and its score; the scores come sorted by increasing value.
///
/// The moves are exactly those of `found_move` (an anchor of either
/// direction, a lexicon word the automaton accepts there, a fewest-blank
/// choice), each once; a move's words are exactly the words that play it;
/// `score` lists each move once, with `total_score`.
pub fn evaluate<S: LetterScoring, B: BoardBonus>(tray: &TrayRemaining, board: &Board, rules: &Rules<S, B>) -> (r: EvaluationResult)
    requires
        board.wf(),
    ensures
        forall|i: int, j: int| 0 <= i < j < r.words@.len() ==> r.words@[i].0@ != r.words@[j].0@,
        forall|i: int, k: int| 0 <= i < r.words@.len() && 0 <= k < strlist_words(r.words@[i].1).len()
            ==> words(rules.dictionary).contains(#[trigger] strlist_words(r.words@[i].1)[k]),
        forall|i: int, a: int, b: int| 0 <= i < r.words@.len() && 0 <= a < b < strlist_words(r.words@[i].1).len()
            ==> strlist_words(r.words@[i].1)[a] != strlist_words(r.words@[i].1)[b],
        r.score@.len() == r.words@.len(),
        forall|k: int| 0 <= k < r.score@.len() ==> (#[trigger] r.score@[k]).1 == total_score(board.value_table@, rules.score_rules, r.score@[k].0@),
        forall|k: int| 0 <= k < r.score@.len() ==> has_move(r.words@, (#[trigger] r.score@[k]).0@),
        forall|i: int, j: int| 0 <= i < j < r.score@.len() ==> r.score@[i].0@ != r.score@[j].0@,
        forall|m: MoveView| has_move(r.words@, m) ==> #[trigger] has_move(r.score@, m),
        forall|i: int, j: int| 0 <= i < j < r.score@.len() ==> r.score@[i].1 <= r.score@[j].1,
        forall|m: MoveView| #[trigger] has_move(r.words@, m) ==> found_move(
            board.letter_table@,
            tray@,
            rules.wildcards_have_multi_meaning,
            words(rules.dictionary),
            m,
        ),
        forall|m: MoveView| #[trigger] found_move(board.letter_table@, tray@, rules.wildcards_have_multi_meaning, words(rules.dictionary), m)
            ==> has_move(r.words@, m),
        forall|i: int, v: Seq<u8>| 0 <= i < r.words@.len() ==> (strlist_words(r.words@[i].1).contains(v) <==> #[trigger] found_word(
            board.letter_table@,
            tray@,
            rules.wildcards_have_multi_meaning,
            words(rules.dictionary),
            r.words@[i].0@,
            v,
        )),
{
    let dict = &rules.dictionary;
    let ghost ws = words(rules.dictionary);
    let prepared_h = ConstrainedBoard::build(&board.letter_table, Direction::Vertical, dict);
    let prepared_v = ConstrainedBoard::build(&board.letter_table, Direction::Horizontal, dict);
    let anchors_v = prepared_v.explore();
    let anchors_h = prepared_h.explore();
    let multi = rules.wildcards_have_multi_meaning;
    let ghost t = board.letter_table@;
    let mut found: Vec<(Move, Vec<Vec<u8>>)> = Vec::new();
    record_board(&mut found, &prepared_v, &anchors_v, tray, multi, dict, Ghost(t));
    let ghost f1 = found@;
    record_board(&mut found, &prepared_h, &anchors_h, tray, multi, dict, Ghost(t));
    proof {
        assert forall|mm: MoveView| #[trigger] found_move(t, tray@, multi, ws, mm) implies has_move(found@, mm) by {
            let (dir, rows, c, x) = choose|dir: Direction, rows: Seq<Seq<RestrictedSquare>>, c: int, x: int|
                #[trigger] rows_for(rows, t, dir, ws) && 0 <= c < BOARD_SIZE && is_anchor(rows[c], x, center_on(c, rows_empty(rows)))
                    && #[trigger] moves_at(anchor_place(dir, c, x), rows[c].subrange(x, BOARD_SIZE as int),
                    anchor_len(rows[c], x, center_on(c, rows_empty(rows))), tray@, multi, ws, mm);
            let cb = if dir == Direction::Horizontal { prepared_v } else { prepared_h };
            lemma_rows_unique(rows, cb.rows(), t, dir, ws);
            assert(cb.all_empty() == rows_empty(rows));
            assert(is_anchor(cb.rows()[c], x, center_on(c, cb.all_empty())));
            if dir == Direction::Horizontal {
                let k = choose|k: int| 0 <= k < anchors_v@.len() && prepared_v.anchor_is(anchors_v@[k], c, x);
                assert(moves_at(anchors_v@[k].0, anchors_v@[k].1@, anchors_v@[k].2 as int, tray@, multi, ws, mm));
                assert(has_move(f1, mm));
            } else {
                let k = choose|k: int| 0 <= k < anchors_h@.len() && prepared_h.anchor_is(anchors_h@[k], c, x);
                assert(moves_at(anchors_h@[k].0, anchors_h@[k].1@, anchors_h@[k].2 as int, tray@, multi, ws, mm));
            }
        }
        assert forall|mm: MoveView, v: Seq<u8>| #[trigger] found_word(t, tray@, multi, ws, mm, v) implies words_of(found@, mm, v) by {
            let (dir, rows, c, x) = choose|dir: Direction, rows: Seq<Seq<RestrictedSquare>>, c: int, x: int|
                #[trigger] rows_for(rows, t, dir, ws) && 0 <= c < BOARD_SIZE && is_anchor(rows[c], x, center_on(c, rows_empty(rows)))
                    && #[trigger] word_at(anchor_place(dir, c, x), rows[c].subrange(x, BOARD_SIZE as int),
                    anchor_len(rows[c], x, center_on(c, rows_empty(rows))), tray@, multi, ws, mm, v);
            let cb = if dir == Direction::Horizontal { prepared_v } else { prepared_h };
            lemma_rows_unique(rows, cb.rows(), t, dir, ws);
            assert(cb.all_empty() == rows_empty(rows));
            assert(is_anchor(cb.rows()[c], x, center_on(c, cb.all_empty())));
            if dir == Direction::Horizontal {
                let k = choose|k: int| 0 <= k < anchors_v@.len() && prepared_v.anchor_is(anchors_v@[k], c, x);
                assert(word_at(anchors_v@[k].0, anchors_v@[k].1@, anchors_v@[k].2 as int, tray@, multi, ws, mm, v));
                assert(words_of(f1, mm, v));
            } else {
                let k = choose|k: int| 0 <= k < anchors_h@.len() && prepared_h.anchor_is(anchors_h@[k], c, x);
                assert(word_at(anchors_h@[k].0, anchors_h@[k].1@, anchors_h@[k].2 as int, tray@, multi, ws, mm, v));
            }
        }
    }
    // scores
    let mut scored: Vec<(Move, u32)> = Vec::new();
    let mut i: usize = 0;
    while i < found.len()
        invariant
            board.wf(),
            i <= found@.len(),
            scored@.len() == i,
            forall|k: int| 0 <= k < i ==> (#[trigger] scored@[k]).1 == total_score(board.value_table@, rules.score_rules, scored@[k].0@),
            forall|k: int| 0 <= k < i ==> has_move(found@, (#[trigger] scored@[k]).0@),
            forall|k: int| 0 <= k < i ==> (#[trigger] scored@[k]).0@ == found@[k].0@,
        decreases found@.len() - i,
    {
        let mv = found[i].0.clone();
        let base = naive_score(&board.value_table, &mv, &rules.score_rules);
        let bonus: u32 = match &mv {
            Move::MultiLetters(_, _, others) => if others.len() == 6 {
                rules.score_rules.extra_bonus
            } else {
                0
            },
            Move::SingleLetter(_, _) => 0,
        };
        proof {
            score::lemma_move_score_nonneg(board.value_table@, rules.score_rules, mv@);
            score::lemma_capped_add(move_score(board.value_table@, rules.score_rules, mv@), bonus as int);
        }
        let s = score::sat_add(base, bonus);
        scored.push((mv, s));
        proof {
            assert(found@[i as int].0@ == scored@[i as int].0@);
            assert(has_move(found@, scored@[i as int].0@));
        }
        i += 1;
    }
    // sort by increasing score
    let ghost fv = found@;
    let ghost sc = scored@;
    let mut sorted = scored;
    sort_by_score(&mut sorted);
    proof {
        broadcast use vstd::seq_lib::group_to_multiset_ensures;
        assert(sorted@.to_multiset().len() == sc.to_multiset().len());
        assert(sorted@.len() == fv.len());
        assert forall|x: int| 0 <= x < sorted@.len() implies exists|j: int| 0 <= j < sc.len() && sc[j] == #[trigger] sorted@[x] by {
            assert(sorted@.to_multiset().count(sorted@[x]) > 0);
            assert(sc.contains(sorted@[x]));
        }
        assert forall|k: int| 0 <= k < sorted@.len() implies (#[trigger] sorted@[k]).1 == total_score(board.value_table@, rules.score_rules, sorted@[k].0@)
            && has_move(fv, sorted@[k].0@) by {
            let j = choose|j: int| 0 <= j < sc.len() && sc[j] == #[trigger] sorted@[k];
            assert(sc[j] == sorted@[k]);
        }
        assert(sc.no_duplicates()) by {
            assert forall|a: int, b: int| 0 <= a < sc.len() && 0 <= b < sc.len() && a != b implies sc[a] != sc[b] by {
                if a < b { assert(sc[a].0@ != sc[b].0@); } else { assert(sc[b].0@ != sc[a].0@); }
            }
        }
        sc.lemma_multiset_has_no_duplicates();
        sorted@.lemma_multiset_has_no_duplicates_conv();
        assert forall|x: int, y: int| 0 <= x < y < sorted@.len() implies sorted@[x].0@ != sorted@[y].0@ by {
            let j1 = choose|j: int| 0 <= j < sc.len() && sc[j] == sorted@[x];
            let j2 = choose|j: int| 0 <= j < sc.len() && sc[j] == sorted@[y];
            if j1 != j2 {
                if j1 < j2 { assert(sc[j1].0@ != sc[j2].0@); } else { assert(sc[j2].0@ != sc[j1].0@); }
            }
        }
        assert forall|m: MoveView| has_move(fv, m) implies has_move(sorted@, m) by {
            let j = choose|j: int| 0 <= j < fv.len() && fv[j].0@ == m;
            assert(sc[j].0@ == m);
            assert(sc.to_multiset().count(sc[j]) > 0);
            assert(sorted@.contains(sc[j]));
            let k = choose|k: int| 0 <= k < sorted@.len() && sorted@[k] == sc[j];
            assert(sorted@[k].0@ == m);
        }
    }
    // the words of each move, as lists
    let mut listed: Vec<(Move, StrList)> = Vec::new();
    while found.len() > 0
        invariant
            forall|k: int| 0 <= k < sorted@.len() ==> has_move(fv, (#[trigger] sorted@[k]).0@),
            found@.len() + listed@.len() == fv.len(),
            forall|k: int| 0 <= k < found@.len() ==> #[trigger] found@[k] == fv[k],
            forall|k: int| 0 <= k < listed@.len() ==> (#[trigger] listed@[k]).0@ == fv[fv.len() - 1 - k].0@,
            forall|i: int, j: int| 0 <= i < j < fv.len() ==> fv[i].0@ != fv[j].0@,
            forall|i: int, k: int| 0 <= i < fv.len() && 0 <= k < fv[i].1@.len() ==> ws.contains(#[trigger] fv[i].1@[k]@),
            forall|i: int, k: int| 0 <= i < listed@.len() && 0 <= k < strlist_words(listed@[i].1).len() ==> ws.contains(#[trigger] strlist_words(listed@[i].1)[k]),
            forall|i: int, a: int, b: int| 0 <= i < fv.len() && 0 <= a < b < fv[i].1@.len() ==> fv[i].1@[a]@ != fv[i].1@[b]@,
            forall|i: int, a: int, b: int| 0 <= i < listed@.len() && 0 <= a < b < strlist_words(listed@[i].1).len()
                ==> strlist_words(listed@[i].1)[a] != strlist_words(listed@[i].1)[b],
            ws == words(rules.dictionary),
            forall|k: int, v: Seq<u8>| 0 <= k < listed@.len() ==> (#[trigger] strlist_words(listed@[k].1).contains(v) <==> exists|x: int|
                0 <= x < fv[fv.len() - 1 - k].1@.len() && (#[trigger] fv[fv.len() - 1 - k].1@[x])@ == v),
        decreases found@.len(),
    {
        let ghost jf = found@.len() - 1;
        let (mv, ws_found) = found.pop().unwrap();
        proof {
            assert(ws_found@ == fv[jf].1@);
        }
        let mut list = StrList::Empty;
        let mut k: usize = 0;
        while k < ws_found.len()
            invariant
                k <= ws_found@.len(),
                strlist_words(list).len() == k,
                forall|x: int| 0 <= x < k ==> #[trigger] strlist_words(list)[x] == ws_found@[k - 1 - x]@,
                forall|x: int| 0 <= x < ws_found@.len() ==> ws.contains(#[trigger] ws_found@[x]@),
                forall|x: int| 0 <= x < strlist_words(list).len() ==> ws.contains(#[trigger] strlist_words(list)[x]),
            decreases ws_found@.len() - k,
        {
            let w = copy_bytes(&ws_found[k]);
            let ghost before = strlist_words(list);
            list = StrList::Elem(w, Box::new(list));
            proof {
                assert(strlist_words(list) == seq![w@] + before);
                assert(ws.contains(ws_found@[k as int]@));
                assert forall|x: int| 0 <= x < k + 1 implies #[trigger] strlist_words(list)[x] == ws_found@[k - x]@ by {
                    if x > 0 {
                        assert(strlist_words(list)[x] == before[x - 1]);
                    }
                }
            }
            k += 1;
        }
        let ghost lw = strlist_words(list);
        listed.push((mv, list));
        proof {
            assert forall|a: int, b: int| 0 <= a < b < lw.len() implies lw[a] != lw[b] by {
                assert(lw[a] == ws_found@[k - 1 - a]@);
                assert(lw[b] == ws_found@[k - 1 - b]@);
                assert(fv[jf].1@[k - 1 - b]@ != fv[jf].1@[k - 1 - a]@);
            }
            assert(strlist_words(listed@[listed@.len() - 1].1) == lw);
            assert forall|kk: int, v: Seq<u8>| 0 <= kk < listed@.len() implies (#[trigger] strlist_words(listed@[kk].1).contains(v) <==> exists|x: int|
                0 <= x < fv[fv.len() - 1 - kk].1@.len() && (#[trigger] fv[fv.len() - 1 - kk].1@[x])@ == v) by {
                if kk == listed@.len() - 1 {
                    assert(fv.len() - 1 - kk == jf);
                    if lw.contains(v) {
                        let y = choose|y: int| 0 <= y < lw.len() && lw[y] == v;
                        assert(fv[jf].1@[k - 1 - y]@ == v);
                    }
                    if exists|x: int| 0 <= x < fv[jf].1@.len() && (#[trigger] fv[jf].1@[x])@ == v {
                        let x = choose|x: int| 0 <= x < fv[jf].1@.len() && fv[jf].1@[x]@ == v;
                        assert(lw[k - 1 - x] == v);
                    }
                }
            }
        }
    }
    proof {
        assert forall|m: MoveView| has_move(listed@, m) implies #[trigger] has_move(sorted@, m) by {
            let k = choose|k: int| 0 <= k < listed@.len() && listed@[k].0@ == m;
            assert(fv[fv.len() - 1 - k].0@ == m);
            assert(has_move(fv, m));
        }
        assert forall|i: int, v: Seq<u8>| 0 <= i < listed@.len() implies (strlist_words(listed@[i].1).contains(v) <==> #[trigger] found_word(
            t, tray@, multi, ws, listed@[i].0@, v)) by {
            let j = fv.len() - 1 - i;
            assert(listed@[i].0@ == fv[j].0@);
            if strlist_words(listed@[i].1).contains(v) {
                let x = choose|x: int| 0 <= x < fv[j].1@.len() && fv[j].1@[x]@ == v;
                assert(words_of(fv, fv[j].0@, v));
            }
            if found_word(t, tray@, multi, ws, listed@[i].0@, v) {
                assert(words_of(fv, fv[j].0@, v));
                let (a, x) = choose|a: int, x: int| 0 <= a < fv.len() && fv[a].0@ == fv[j].0@ && 0 <= x < fv[a].1@.len() && #[trigger] fv[a].1@[x]@ == v;
                assert(a == j);
                assert(exists|x: int| 0 <= x < fv[j].1@.len() && (#[trigger] fv[j].1@[x])@ == v);
            }
        }
        assert forall|m: MoveView| #[trigger] has_move(listed@, m) implies found_move(t, tray@, multi, ws, m) by {
            let k = choose|k: int| 0 <= k < listed@.len() && listed@[k].0@ == m;
            assert(fv[fv.len() - 1 - k].0@ == m);
        }
        assert forall|m: MoveView| #[trigger] found_move(t, tray@, multi, ws, m) implies has_move(listed@, m) by {
            let i = choose|i: int| 0 <= i < fv.len() && fv[i].0@ == m;
            assert(listed@[fv.len() - 1 - i].0@ == fv[i].0@);
        }
        assert forall|k: int| 0 <= k < sorted@.len() implies has_move(listed@, (#[trigger] sorted@[k]).0@) by {
            let i = choose|i: int| 0 <= i < fv.len() && fv[i].0@ == sorted@[k].0@;
            assert(listed@[fv.len() - 1 - i].0@ == fv[i].0@);
        }
    }
    EvaluationResult { words: listed, score: sorted }
}

} // verus!

verus! {

proof fn lemma_attach_end_square(row: Seq<RestrictedSquare>, x: int, center: int)
    requires
        attach_end(row, x, center) < BOARD_SIZE,
        0 <= x,
    ensures
        x <= attach_end(row, x, center),
        ({
            let e = attach_end(row, x, center);
            e == center || !(row[e] matches RestrictedSquare::Empty(set) && set@ == alphabet())
        }),
    decreases BOARD_SIZE - x,
{
    if x < BOARD_SIZE && x != center && (row[x] matches RestrictedSquare::Empty(set) && set@ == alphabet()) {
        lemma_attach_end_square(row, x + 1, center);
    }
}

/// A word accepted from an anchor is attached: it covers the anchor's
/// attaching square, which holds a tile, has a cross word (a tile next to it
/// across the line), or is the centre of an empty board.
pub proof fn lemma_accepted_word_attaches(a: ScrabbleAutomata, row: Seq<RestrictedSquare>, x: int, center: int, w: Seq<u8>)
    requires
        is_anchor(row, x, center),
        a.line@ == row.subrange(x, BOARD_SIZE as int),
        a.min_len == anchor_len(row, x, center),
        a.accepts(w),
    ensures
        x <= attach_end(row, x, center) < x + w.len(),
        ({
            let e = attach_end(row, x, center);
            e == center || !(row[e] matches RestrictedSquare::Empty(set) && set@ == alphabet())
        }),
{
    word_finder::lemma_read_word_fits_line(a.line@, a.wildcards_have_multi_meaning, a.start_view(), w);
    lemma_attach_end_square(row, x, center);
}

} // verus!

verus! {

use crate::input::at_most_255;
use word_finder::{assignments_of, is_final, run, StateView, TrayView};

/// Which indices of a word of length `n` the blanks `ws` put where the cross
/// word does not allow the letter.
pub open spec fn inter_of(ws: Seq<WildcardAssignment>, n: int) -> Seq<bool> {
    Seq::new(n as nat, |j: int| ws.contains(WildcardAssignment::Intersection(j as usize)))
}

/// How many blanks of `ws` stand for the missing letter `b`.
pub open spec fn missing_count(ws: Seq<WildcardAssignment>, b: u8) -> int
    decreases ws.len(),
{
    if ws.len() == 0 {
        0
    } else {
        (if ws[0] == WildcardAssignment::MissingLetter(b) {
            1int
        } else {
            0
        }) + missing_count(ws.drop_first(), b)
    }
}

proof fn lemma_missing_count_nonneg(ws: Seq<WildcardAssignment>, b: u8)
    ensures
        missing_count(ws, b) >= 0,
    decreases ws.len(),
{
    if ws.len() > 0 {
        lemma_missing_count_nonneg(ws.drop_first(), b);
    }
}

/// For each letter, how many blanks of `ws` stand for it as a missing letter.
pub open spec fn missing_of(ws: Seq<WildcardAssignment>) -> Seq<u8> {
    Seq::new(256, |b: int| at_most_255(missing_count(ws, b as u8)))
}

/// The automaton on `line` (a word needing `min_len` squares, the tray
/// `tray`) accepts `w`.
pub open spec fn word_accepted(line: Seq<RestrictedSquare>, min_len: int, tray: TrayView, multi: bool, w: Seq<u8>) -> bool {
    is_final(line, min_len, tray.total, run(line, multi, StateView { position: 0, wildcards: Seq::empty(), tray }, w))
}

/// The blanks the automaton assigned on reading `w`.
pub open spec fn wildcards_after(line: Seq<RestrictedSquare>, tray: TrayView, multi: bool, w: Seq<u8>) -> Seq<WildcardAssignment> {
    match run(line, multi, StateView { position: 0, wildcards: Seq::empty(), tray }, w) {
        Some(st) => st.wildcards,
        None => Seq::empty(),
    }
}

/// `m` is a move from the anchor at `place` (the rest of its line `line`,
/// needing `min_len` squares): it plays a word of the lexicon that the
/// automaton accepts there, with one of the fewest-blank choices.
pub open spec fn moves_at(
    place: Placement,
    line: Seq<RestrictedSquare>,
    min_len: int,
    tray: TrayView,
    multi: bool,
    words: Set<Seq<u8>>,
    m: MoveView,
) -> bool {
    exists|w: Seq<u8>, b: Seq<bool>|
        #[trigger] words.contains(w) && word_accepted(line, min_len, tray, multi, w) && valid_blanks(
            line,
            w,
            inter_of(wildcards_after(line, tray, multi, w), w.len() as int),
            missing_of(wildcards_after(line, tray, multi, w)),
            b,
        ) && #[trigger] move_from(place, line, w, inter_of(wildcards_after(line, tray, multi, w), w.len() as int), b)
            == Some(m)
}

/// Word `w` of the lexicon, accepted from the anchor at `place`, plays the
/// move `m` with one of the fewest-blank choices.
pub open spec fn word_at(
    place: Placement,
    line: Seq<RestrictedSquare>,
    min_len: int,
    tray: TrayView,
    multi: bool,
    words: Set<Seq<u8>>,
    m: MoveView,
    w: Seq<u8>,
) -> bool {
    &&& words.contains(w)
    &&& word_accepted(line, min_len, tray, multi, w)
    &&& exists|b: Seq<bool>|
        valid_blanks(line, w, inter_of(wildcards_after(line, tray, multi, w), w.len() as int), missing_of(wildcards_after(line, tray, multi, w)), b)
            && #[trigger] move_from(place, line, w, inter_of(wildcards_after(line, tray, multi, w), w.len() as int), b) == Some(m)
}

/// `rows` are the restrictions of the board `t` for cross words along `dir`.
pub open spec fn rows_for(rows: Seq<Seq<RestrictedSquare>>, t: Seq<Seq<Square>>, dir: Direction, words: Set<Seq<u8>>) -> bool {
    &&& rows.len() == BOARD_SIZE
    &&& forall|c: int| 0 <= c < BOARD_SIZE ==> #[trigger] rows[c].len() == BOARD_SIZE
    &&& forall|c: int, x: int| 0 <= c < BOARD_SIZE && 0 <= x < BOARD_SIZE ==> restriction_for(
        #[trigger] rows[c][x],
        board_line(t, dir, x),
        c,
        words,
    )
}

/// No square of the rows holds a tile.
pub open spec fn rows_empty(rows: Seq<Seq<RestrictedSquare>>) -> bool {
    forall|c: int, x: int| 0 <= c < BOARD_SIZE && 0 <= x < BOARD_SIZE ==> !(#[trigger] rows[c][x] is Filled)
}

/// Where the anchor at square `x` of row `c` stands, for moves across `dir`.
pub open spec fn anchor_place(dir: Direction, c: int, x: int) -> Placement {
    Placement(Position { row: 0, col: 0 }.with_coord(dir, c as usize).with_coord(dir.perp(), x as usize), dir.perp())
}

/// `m` is a legal move on the board whose letters are `t`: from an anchor of
/// one of the two directions, it plays a word of the lexicon accepted there.
pub open spec fn found_move(t: Seq<Seq<Square>>, tray: TrayView, multi: bool, words: Set<Seq<u8>>, m: MoveView) -> bool {
    exists|dir: Direction, rows: Seq<Seq<RestrictedSquare>>, c: int, x: int|
        #[trigger] rows_for(rows, t, dir, words) && 0 <= c < BOARD_SIZE && is_anchor(
            rows[c],
            x,
            center_on(c, rows_empty(rows)),
        ) && #[trigger] moves_at(
            anchor_place(dir, c, x),
            rows[c].subrange(x, BOARD_SIZE as int),
            anchor_len(rows[c], x, center_on(c, rows_empty(rows))),
            tray,
            multi,
            words,
            m,
        )
}

/// Move `m` plays the word `w` from an anchor of one of the two directions.
pub open spec fn found_word(t: Seq<Seq<Square>>, tray: TrayView, multi: bool, words: Set<Seq<u8>>, m: MoveView, w: Seq<u8>) -> bool {
    exists|dir: Direction, rows: Seq<Seq<RestrictedSquare>>, c: int, x: int|
        #[trigger] rows_for(rows, t, dir, words) && 0 <= c < BOARD_SIZE && is_anchor(
            rows[c],
            x,
            center_on(c, rows_empty(rows)),
        ) && #[trigger] word_at(
            anchor_place(dir, c, x),
            rows[c].subrange(x, BOARD_SIZE as int),
            anchor_len(rows[c], x, center_on(c, rows_empty(rows))),
            tray,
            multi,
            words,
            m,
            w,
        )
}

proof fn lemma_rows_unique(r1: Seq<Seq<RestrictedSquare>>, r2: Seq<Seq<RestrictedSquare>>, t: Seq<Seq<Square>>, dir: Direction, words: Set<Seq<u8>>)
    requires
        rows_for(r1, t, dir, words),
        rows_for(r2, t, dir, words),
    ensures
        r1 == r2,
{
    assert forall|c: int| 0 <= c < BOARD_SIZE implies r1[c] == r2[c] by {
        assert forall|x: int| 0 <= x < BOARD_SIZE implies r1[c][x] == r2[c][x] by {
            restrictionner::lemma_restriction_unique(r1[c][x], r2[c][x], board_line(t, dir, x), c, words);
        }
        assert(r1[c] =~= r2[c]);
    }
    assert(r1 =~= r2);
}

/// Reads the blanks of `list` into `inter` (indices below `inter`'s length)
/// and `missing` (counts staying at 255 at most).
fn read_assignments(list: &WildcardAssignmentList, inter: &mut Vec<bool>, missing: &mut [u8; 256])
    ensures
        final(inter)@.len() == old(inter)@.len(),
        forall|j: int| 0 <= j < old(inter)@.len() ==> #[trigger] final(inter)@[j] == (old(inter)@[j]
            || assignments_of(*list).contains(WildcardAssignment::Intersection(j as usize))),
        forall|b: u8| #[trigger] final(missing)@[b as int] == at_most_255(old(missing)@[b as int] + missing_count(assignments_of(*list), b)),
    decreases list,
{
    match list {
        WildcardAssignmentList::Empty => {
            proof {
                assert forall|b: u8| #[trigger] missing@[b as int] == at_most_255(old(missing)@[b as int] + missing_count(assignments_of(*list), b)) by {}
            }
        },
        WildcardAssignmentList::Elem(a, rest) => {
            let ghost i0 = inter@;
            let ghost m0 = missing@;
            match a {
                WildcardAssignment::Intersection(i) => {
                    if *i < inter.len() {
                        inter.set(*i, true);
                    }
                },
                WildcardAssignment::MissingLetter(l) => {
                    if missing[*l as usize] < 255 {
                        missing[*l as usize] = missing[*l as usize] + 1;
                    }
                },
            }
            let ghost i1 = inter@;
            let ghost m1 = missing@;
            read_assignments(rest, inter, missing);
            proof {
                let ws = assignments_of(*list);
                let rs = assignments_of(**rest);
                assert(ws == seq![*a] + rs);
                assert(ws.drop_first() =~= rs);
                assert forall|x: WildcardAssignment| ws.contains(x) == (x == *a || rs.contains(x)) by {
                    if rs.contains(x) {
                        let k = choose|k: int| 0 <= k < rs.len() && rs[k] == x;
                        assert(ws[k + 1] == x);
                    }
                    if ws.contains(x) && x != *a {
                        let k = choose|k: int| 0 <= k < ws.len() && ws[k] == x;
                        assert(rs[k - 1] == x);
                    }
                    assert(ws[0] == *a);
                }
                assert forall|b: u8| #[trigger] missing@[b as int] == at_most_255(m0[b as int] + missing_count(ws, b)) by {
                    lemma_missing_count_nonneg(rs, b);
                    assert(missing_count(ws, b) == (if *a == WildcardAssignment::MissingLetter(b) { 1int } else { 0 }) + missing_count(rs, b));
                    if *a == WildcardAssignment::MissingLetter(b) {
                        assert(m1[b as int] == at_most_255(m0[b as int] + 1));
                    } else {
                        assert(m1[b as int] == m0[b as int]);
                    }
                }
                assert forall|j: int| 0 <= j < i0.len() implies #[trigger] inter@[j] == (i0[j] || ws.contains(WildcardAssignment::Intersection(j as usize))) by {
                    if *a == WildcardAssignment::Intersection(j as usize) {
                        assert(i1[j]);
                    } else {
                        assert(i1[j] == i0[j]);
                    }
                }
            }
        },
    }
}

} // verus!
