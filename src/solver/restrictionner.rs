//! The letters that each empty square of a line allows: those that complete
//! the perpendicular word through the square into a word of the lexicon.

use vstd::prelude::*;

verus! {

use super::letter_set::{alphabet, LetterSet};
use super::lexicon::{search_cross_words, words};
use super::RestrictedSquare;
use crate::{Letter, LetterTile, Square};

/// Whether byte `b` can stand where tile `t` is: a blank stands for any letter.
pub open spec fn tile_matches(t: LetterTile, b: u8) -> bool {
    match t {
        LetterTile::Wildcard => true,
        LetterTile::Letter(l) => l.0 == b,
    }
}

/// Whether `w` is `prefix`, then `b`, then `suffix`.
pub open spec fn pattern_fits(prefix: Seq<LetterTile>, suffix: Seq<LetterTile>, b: u8, w: Seq<u8>) -> bool {
    &&& w.len() == prefix.len() + 1 + suffix.len()
    &&& forall|j: int| 0 <= j < prefix.len() ==> tile_matches(#[trigger] prefix[j], w[j])
    &&& w[prefix.len() as int] == b
    &&& forall|j: int| 0 <= j < suffix.len() ==> tile_matches(#[trigger] suffix[j], w[prefix.len() + 1 + j])
}

/// The automaton that accepts the words made of `prefix`, one letter, and `suffix`.
pub struct RestrictionChecker<'a> {
    pub prefix: &'a [LetterTile],
    pub suffix: &'a [LetterTile],
}

#[derive(Copy, Clone, PartialEq, Eq, Structural, Debug)]
pub enum RestrictionCheckerState {
    /// This many bytes of the prefix read.
    Prefix(usize),
    /// The prefix read; the next byte is the middle letter.
    Mid,
    /// This many bytes of the suffix read, after the middle letter.
    Suffix(usize, Letter),
    /// The whole pattern read, with this middle letter.
    Done(Letter),
}

pub open spec fn checker_start(prefix: Seq<LetterTile>) -> RestrictionCheckerState {
    if prefix.len() == 0 {
        RestrictionCheckerState::Mid
    } else {
        RestrictionCheckerState::Prefix(0)
    }
}

pub open spec fn checker_step(
    prefix: Seq<LetterTile>,
    suffix: Seq<LetterTile>,
    s: Option<RestrictionCheckerState>,
    b: u8,
) -> Option<RestrictionCheckerState> {
    match s {
        None => None,
        Some(RestrictionCheckerState::Prefix(i)) => if i < prefix.len() && tile_matches(prefix[i as int], b) {
            Some(if i + 1 == prefix.len() {
                RestrictionCheckerState::Mid
            } else {
                RestrictionCheckerState::Prefix((i + 1) as usize)
            })
        } else {
            None
        },
        Some(RestrictionCheckerState::Mid) => Some(if suffix.len() == 0 {
            RestrictionCheckerState::Done(Letter(b))
        } else {
            RestrictionCheckerState::Suffix(0, Letter(b))
        }),
        Some(RestrictionCheckerState::Suffix(i, l)) => if i < suffix.len() && tile_matches(suffix[i as int], b) {
            Some(if i + 1 == suffix.len() {
                RestrictionCheckerState::Done(l)
            } else {
                RestrictionCheckerState::Suffix((i + 1) as usize, l)
            })
        } else {
            None
        },
        Some(RestrictionCheckerState::Done(_)) => None,
    }
}

/// The state after the bytes of `w`.
pub open spec fn checker_run(prefix: Seq<LetterTile>, suffix: Seq<LetterTile>, w: Seq<u8>) -> Option<RestrictionCheckerState>
    decreases w.len(),
{
    if w.len() == 0 {
        Some(checker_start(prefix))
    } else {
        checker_step(prefix, suffix, checker_run(prefix, suffix, w.drop_last()), w.last())
    }
}

/// The state after the bytes of `w`, stated directly.
spec fn checker_expected(prefix: Seq<LetterTile>, suffix: Seq<LetterTile>, w: Seq<u8>) -> Option<RestrictionCheckerState> {
    let p = prefix.len() as int;
    let s = suffix.len() as int;
    let n = w.len() as int;
    if !(forall|j: int| 0 <= j < n && j < p ==> tile_matches(#[trigger] prefix[j], w[j])) {
        None
    } else if n < p {
        Some(RestrictionCheckerState::Prefix(n as usize))
    } else if n == p {
        Some(RestrictionCheckerState::Mid)
    } else if !(forall|j: int| 0 <= j < n - p - 1 && j < s ==> tile_matches(#[trigger] suffix[j], w[p + 1 + j])) {
        None
    } else if n - p - 1 < s {
        Some(RestrictionCheckerState::Suffix((n - p - 1) as usize, Letter(w[p])))
    } else if n - p - 1 == s {
        Some(RestrictionCheckerState::Done(Letter(w[p])))
    } else {
        None
    }
}

proof fn lemma_checker_run(prefix: Seq<LetterTile>, suffix: Seq<LetterTile>, w: Seq<u8>)
    requires
        prefix.len() < usize::MAX,
        suffix.len() < usize::MAX,
    ensures
        checker_run(prefix, suffix, w) == checker_expected(prefix, suffix, w),
    decreases w.len(),
{
    if w.len() > 0 {
        let v = w.drop_last();
        lemma_checker_run(prefix, suffix, v);
        let p = prefix.len() as int;
        let s = suffix.len() as int;
        let n = w.len() as int;
        assert forall|j: int| 0 <= j < n - 1 implies w[j] == v[j] by {}
        if n - 1 > p {
            assert(v[p] == w[p]);
        }
        if !(forall|j: int| 0 <= j < n - 1 && j < p ==> tile_matches(#[trigger] prefix[j], v[j])) {
            let j = choose|j: int| !(0 <= j < n - 1 && j < p ==> tile_matches(#[trigger] prefix[j], v[j]));
            assert(!(0 <= j < n && j < p ==> tile_matches(prefix[j], w[j])));
        } else if n - 1 > p && !(forall|j: int| 0 <= j < n - 1 - p - 1 && j < s ==> tile_matches(#[trigger] suffix[j], v[p + 1 + j])) {
            let j = choose|j: int| !(0 <= j < n - 1 - p - 1 && j < s ==> tile_matches(#[trigger] suffix[j], v[p + 1 + j]));
            assert(!(0 <= j < n - p - 1 && j < s ==> tile_matches(suffix[j], w[p + 1 + j])));
        } else {
            if n - 1 < p {
                assert forall|j: int| 0 <= j < n && j < p implies tile_matches(#[trigger] prefix[j], w[j]) == (j < n - 1 || tile_matches(prefix[n - 1], w.last())) by {
                    if j < n - 1 {
                        assert(tile_matches(prefix[j], v[j]));
                    }
                }
            } else if n - 1 > p {
                assert forall|j: int| 0 <= j < n && j < p implies tile_matches(#[trigger] prefix[j], w[j]) by {
                    assert(tile_matches(prefix[j], v[j]));
                }
                assert forall|j: int| 0 <= j < n - p - 1 && j < s implies tile_matches(#[trigger] suffix[j], w[p + 1 + j]) == (j < n - p - 2 || tile_matches(suffix[n - p - 2], w.last())) by {
                    if j < n - p - 2 {
                        assert(tile_matches(suffix[j], v[p + 1 + j]));
                    }
                }
            } else {
                assert forall|j: int| 0 <= j < n && j < p implies tile_matches(#[trigger] prefix[j], w[j]) by {
                    assert(tile_matches(prefix[j], v[j]));
                }
            }
        }
    }
}

/// The restriction automaton accepts `w`, with middle letter `b`, exactly when `w` is
/// `prefix`, then `b`, then `suffix`.
proof fn lemma_checker_done(prefix: Seq<LetterTile>, suffix: Seq<LetterTile>, b: u8, w: Seq<u8>)
    requires
        prefix.len() < usize::MAX,
        suffix.len() < usize::MAX,
    ensures
        (checker_run(prefix, suffix, w) == Some(RestrictionCheckerState::Done(Letter(b)))) == pattern_fits(prefix, suffix, b, w),
{
    lemma_checker_run(prefix, suffix, w);
    let p = prefix.len() as int;
    if pattern_fits(prefix, suffix, b, w) {
        assert(forall|j: int| 0 <= j < w.len() && j < p ==> tile_matches(#[trigger] prefix[j], w[j]));
        assert(forall|j: int| 0 <= j < w.len() - p - 1 && j < suffix.len() ==> tile_matches(#[trigger] suffix[j], w[p + 1 + j]));
    }
}

impl<'a> fst::Automaton for RestrictionChecker<'a> {
    type State = Option<RestrictionCheckerState>;

    fn start(&self) -> (r: Option<RestrictionCheckerState>)
        ensures
            r == Some(checker_start(self.prefix@)),
    {
        if self.prefix.len() == 0 {
            Some(RestrictionCheckerState::Mid)
        } else {
            Some(RestrictionCheckerState::Prefix(0))
        }
    }

    fn is_match(&self, state: &Option<RestrictionCheckerState>) -> (r: bool)
        ensures
            r == (*state matches Some(RestrictionCheckerState::Done(_))),
    {
        match state {
            Some(RestrictionCheckerState::Done(_)) => true,
            _ => false,
        }
    }

    fn accept(&self, state: &Option<RestrictionCheckerState>, byte: u8) -> (r: Option<RestrictionCheckerState>)
        ensures
            r == checker_step(self.prefix@, self.suffix@, *state, byte),
    {
        match state {
            None => None,
            Some(RestrictionCheckerState::Prefix(i)) => {
                let i = *i;
                if i < self.prefix.len() && match self.prefix[i] {
                    LetterTile::Wildcard => true,
                    LetterTile::Letter(l) => l.0 == byte,
                } {
                    Some(
                        if i + 1 == self.prefix.len() {
                            RestrictionCheckerState::Mid
                        } else {
                            RestrictionCheckerState::Prefix(i + 1)
                        },
                    )
                } else {
                    None
                }
            },
            Some(RestrictionCheckerState::Mid) => Some(
                if self.suffix.len() == 0 {
                    RestrictionCheckerState::Done(Letter(byte))
                } else {
                    RestrictionCheckerState::Suffix(0, Letter(byte))
                },
            ),
            Some(RestrictionCheckerState::Suffix(i, l)) => {
                let i = *i;
                if i < self.suffix.len() && match self.suffix[i] {
                    LetterTile::Wildcard => true,
                    LetterTile::Letter(m) => m.0 == byte,
                } {
                    Some(
                        if i + 1 == self.suffix.len() {
                            RestrictionCheckerState::Done(*l)
                        } else {
                            RestrictionCheckerState::Suffix(i + 1, *l)
                        },
                    )
                } else {
                    None
                }
            },
            Some(RestrictionCheckerState::Done(_)) => None,
        }
    }

    fn can_match(&self, state: &Option<RestrictionCheckerState>) -> (r: bool)
        ensures
            r == state.is_some(),
    {
        state.is_some()
    }
}

/// The start of the run of filled squares that ends just before `i`.
pub open spec fn run_start_in(line: Seq<Square>, i: int) -> int
    decreases i,
{
    if i > 0 && line[i - 1] is Filled {
        run_start_in(line, i - 1)
    } else {
        i
    }
}

/// The end (exclusive) of the run of filled squares that starts at `j`.
pub open spec fn run_end_in(line: Seq<Square>, j: int) -> int
    decreases line.len() - j,
{
    if 0 <= j < line.len() && line[j] is Filled {
        run_end_in(line, j + 1)
    } else {
        j
    }
}

pub open spec fn tile_of(q: Square) -> LetterTile {
    match q {
        Square::Filled(t) => t,
        Square::Empty => LetterTile::Wildcard,
    }
}

/// The tiles of filled squares.
pub open spec fn tiles_of(s: Seq<Square>) -> Seq<LetterTile> {
    s.map_values(|q: Square| tile_of(q))
}

/// The tiles just before square `i` of the line, up to the first empty square.
pub open spec fn prefix_at(line: Seq<Square>, i: int) -> Seq<LetterTile> {
    tiles_of(line.subrange(run_start_in(line, i), i))
}

/// The tiles just after square `i` of the line, up to the first empty square.
pub open spec fn suffix_at(line: Seq<Square>, i: int) -> Seq<LetterTile> {
    tiles_of(line.subrange(i + 1, run_end_in(line, i + 1)))
}

/// The letters `b` such that `prefix`, `b`, `suffix` is a word.
pub open spec fn cross_letters(words: Set<Seq<u8>>, prefix: Seq<LetterTile>, suffix: Seq<LetterTile>) -> Set<u8> {
    Set::new(|b: u8| exists|w: Seq<u8>| #[trigger] words.contains(w) && pattern_fits(prefix, suffix, b, w))
}

/// The letters allowed on empty square `i` of the line: any letter `a` to
/// `z` when no tile touches it, else those that complete the word through it.
pub open spec fn allowed_letters(line: Seq<Square>, i: int, words: Set<Seq<u8>>) -> Set<u8> {
    if prefix_at(line, i).len() == 0 && suffix_at(line, i).len() == 0 {
        alphabet()
    } else {
        cross_letters(words, prefix_at(line, i), suffix_at(line, i))
    }
}

/// `r` is the restriction of square `i` of the line.
pub open spec fn restriction_for(r: RestrictedSquare, line: Seq<Square>, i: int, words: Set<Seq<u8>>) -> bool {
    match line[i] {
        Square::Filled(t) => r == RestrictedSquare::Filled(t),
        Square::Empty => r matches RestrictedSquare::Empty(set) && set@ == allowed_letters(line, i, words),
    }
}

/// A square has one restriction.
pub proof fn lemma_restriction_unique(r1: RestrictedSquare, r2: RestrictedSquare, line: Seq<Square>, i: int, words: Set<Seq<u8>>)
    requires
        restriction_for(r1, line, i, words),
        restriction_for(r2, line, i, words),
    ensures
        r1 == r2,
{
    if let (RestrictedSquare::Empty(s1), RestrictedSquare::Empty(s2)) = (r1, r2) {
        LetterSet::lemma_view_injective(s1, s2);
    }
}

/// The letters `b` for which `prefix`, `b`, `suffix` is a word of the lexicon.
fn letters_between(prefix: &Vec<LetterTile>, suffix: &Vec<LetterTile>, dictionary: &fst::Set<Vec<u8>>) -> (r: LetterSet)
    requires
        prefix@.len() < usize::MAX,
        suffix@.len() < usize::MAX,
    ensures
        r@ == cross_letters(words(*dictionary), prefix@, suffix@),
{
    let results = search_cross_words(dictionary, RestrictionChecker { prefix: prefix.as_slice(), suffix: suffix.as_slice() });
    let mut set = LetterSet::empty();
    let mut m: usize = 0;
    while m < results.len()
        invariant
            m <= results@.len(),
            forall|b: u8| #[trigger] set@.contains(b) <==> exists|k: int| 0 <= k < m && results@[k].1 == Some(RestrictionCheckerState::Done(Letter(b))),
        decreases results@.len() - m,
    {
        let ghost before = set@;
        match results[m].1 {
            Some(RestrictionCheckerState::Done(l)) => set.insert(l),
            _ => {},
        }
        proof {
            assert forall|b: u8| #[trigger] set@.contains(b) <==> exists|k: int| 0 <= k < m + 1 && results@[k].1 == Some(RestrictionCheckerState::Done(Letter(b))) by {
                if results@[m as int].1 == Some(RestrictionCheckerState::Done(Letter(b))) {
                    assert(set@.contains(b));
                }
                if set@.contains(b) && !before.contains(b) {
                    assert(results@[m as int].1 == Some(RestrictionCheckerState::Done(Letter(b))));
                }
                if exists|k: int| 0 <= k < m + 1 && results@[k].1 == Some(RestrictionCheckerState::Done(Letter(b))) {
                    let k = choose|k: int| 0 <= k < m + 1 && results@[k].1 == Some(RestrictionCheckerState::Done(Letter(b)));
                    if k < m {
                        assert(before.contains(b));
                    }
                }
            }
        }
        m += 1;
    }
    proof {
        let ws = words(*dictionary);
        assert forall|b: u8| set@.contains(b) == cross_letters(ws, prefix@, suffix@).contains(b) by {
            if set@.contains(b) {
                let k = choose|k: int| 0 <= k < results@.len() && results@[k].1 == Some(RestrictionCheckerState::Done(Letter(b)));
                let w = results@[k].0@;
                assert(ws.contains(w));
                lemma_checker_done(prefix@, suffix@, b, w);
            }
            if cross_letters(ws, prefix@, suffix@).contains(b) {
                let w = choose|w: Seq<u8>| #[trigger] ws.contains(w) && pattern_fits(prefix@, suffix@, b, w);
                lemma_checker_done(prefix@, suffix@, b, w);
                let i = choose|i: int| 0 <= i < results@.len() && results@[i].0@ == w;
                assert(results@[i].1 == Some(RestrictionCheckerState::Done(Letter(b))));
            }
        }
        assert(set@ =~= cross_letters(ws, prefix@, suffix@));
    }
    set
}

/// The restriction of each square of `line`, into `restr`: a filled square
/// keeps its tile; an empty one gets the letters that the word across it
/// allows.
pub fn find_restrictions(line: &[Square], restr: &mut [RestrictedSquare], dictionary: &fst::Set<Vec<u8>>)
    requires
        line@.len() == old(restr)@.len(),
    ensures
        final(restr)@.len() == line@.len(),
        forall|i: int| 0 <= i < line@.len() ==> restriction_for(#[trigger] final(restr)@[i], line@, i, words(*dictionary)),
{
    let n = line.len();
    let mut i: usize = 0;
    while i < n
        invariant
            n == line@.len(),
            restr@.len() == n,
            i <= n,
            forall|k: int| 0 <= k < i ==> restriction_for(#[trigger] restr@[k], line@, k, words(*dictionary)),
        decreases n - i,
    {
        let r = match line[i] {
            Square::Filled(tile) => RestrictedSquare::Filled(tile),
            Square::Empty => {
                let mut j = i;
                while j > 0 && matches!(line[j - 1], Square::Filled(_))
                    invariant
                        j <= i < n,
                        n == line@.len(),
                        run_start_in(line@, j as int) == run_start_in(line@, i as int),
                    decreases j,
                {
                    j -= 1;
                }
                let mut prefix: Vec<LetterTile> = Vec::new();
                let mut k = j;
                while k < i
                    invariant
                        j <= k <= i < n,
                        n == line@.len(),
                        prefix@ == tiles_of(line@.subrange(j as int, k as int)),
                    decreases i - k,
                {
                    prefix.push(match line[k] {
                        Square::Filled(t) => t,
                        Square::Empty => LetterTile::Wildcard,
                    });
                    proof {
                        assert(tiles_of(line@.subrange(j as int, k + 1)) =~= tiles_of(line@.subrange(j as int, k as int)).push(tile_of(line@[k as int])));
                    }
                    k += 1;
                }
                let mut suffix: Vec<LetterTile> = Vec::new();
                let mut k = i + 1;
                while k < n && matches!(line[k], Square::Filled(_))
                    invariant
                        i < k <= n,
                        n == line@.len(),
                        suffix@ == tiles_of(line@.subrange(i + 1, k as int)),
                        run_end_in(line@, k as int) == run_end_in(line@, i + 1),
                    decreases n - k,
                {
                    suffix.push(match line[k] {
                        Square::Filled(t) => t,
                        Square::Empty => LetterTile::Wildcard,
                    });
                    proof {
                        assert(tiles_of(line@.subrange(i + 1, k + 1)) =~= tiles_of(line@.subrange(i + 1, k as int)).push(tile_of(line@[k as int])));
                    }
                    k += 1;
                }
                proof {
                    assert(prefix@ == prefix_at(line@, i as int));
                    assert(suffix@ == suffix_at(line@, i as int));
                }
                if prefix.len() == 0 && suffix.len() == 0 {
                    RestrictedSquare::Empty(LetterSet::alphabet())
                } else {
                    RestrictedSquare::Empty(letters_between(&prefix, &suffix, dictionary))
                }
            },
        };
        restr[i] = r;
        i += 1;
    }
}

} // verus!

verus! {

/// On an empty square, a letter is allowed exactly when the perpendicular
/// word it completes (the tiles before it, the letter, the tiles after it,
/// a blank on the board matching any byte) is in the lexicon; with no tile
/// on either side, exactly the letters `a` to `z` are allowed.
pub proof fn lemma_cross_constraint_soundness(
    r: RestrictedSquare,
    line: Seq<Square>,
    i: int,
    words: Set<Seq<u8>>,
    b: u8,
)
    requires
        0 <= i < line.len(),
        line[i] is Empty,
        restriction_for(r, line, i, words),
    ensures
        r matches RestrictedSquare::Empty(set) && set@.contains(b) == if prefix_at(line, i).len() == 0 && suffix_at(line, i).len() == 0 {
            97 <= b <= 122
        } else {
            exists|w: Seq<u8>| #[trigger] words.contains(w) && pattern_fits(prefix_at(line, i), suffix_at(line, i), b, w)
        },
{
}

} // verus!
