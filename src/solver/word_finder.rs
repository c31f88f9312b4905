//! The automaton that walks the lexicon from an anchor and accepts exactly
//! the words that can be played there.

use vstd::prelude::*;

verus! {

use super::RestrictedSquare;
use crate::{Letter, LetterTile};

/// The sum of the counts in `s`.
pub open spec fn seq_sum(s: Seq<u8>) -> int
    decreases s.len(),
{
    if s.len() == 0 {
        0
    } else {
        seq_sum(s.drop_last()) + s.last()
    }
}

proof fn lemma_seq_sum_bounds(s: Seq<u8>)
    ensures
        0 <= seq_sum(s) <= 255 * s.len(),
    decreases s.len(),
{
    if s.len() > 0 {
        lemma_seq_sum_bounds(s.drop_last());
    }
}

proof fn lemma_seq_sum_update(s: Seq<u8>, i: int, v: u8)
    requires
        0 <= i < s.len(),
    ensures
        seq_sum(s.update(i, v)) == seq_sum(s) - s[i] + v,
        seq_sum(s) >= s[i],
    decreases s.len(),
{
    lemma_seq_sum_bounds(s.drop_last());
    if i == s.len() - 1 {
        assert(s.update(i, v).drop_last() =~= s.drop_last());
    } else {
        lemma_seq_sum_update(s.drop_last(), i, v);
        assert(s.update(i, v).drop_last() =~= s.drop_last().update(i, v));
    }
}

/// The tiles left in a tray: a count for each letter, and the blanks.
#[derive(Copy, Clone, Debug)]
pub struct TrayRemaining {
    letters: [u8; 256],
    n_wildcards: u8,
    /// The number of letters and blanks left.
    n_total: u32,
}

/// A tray as mathematical values.
pub struct TrayView {
    /// The count of each letter, indexed by its byte.
    pub letters: Seq<u8>,
    pub wildcards: u8,
    /// The number of tiles, letters and blanks.
    pub total: u32,
}

impl View for TrayRemaining {
    type V = TrayView;

    closed spec fn view(&self) -> TrayView {
        TrayView { letters: self.letters@, wildcards: self.n_wildcards, total: self.n_total }
    }
}

impl TrayView {
    /// The total is the number of letters and blanks.
    pub open spec fn wf(self) -> bool {
        &&& self.letters.len() == 256
        &&& self.total == seq_sum(self.letters) + self.wildcards
    }

    /// The tray with one letter `b` less.
    pub open spec fn without_letter(self, b: u8) -> TrayView {
        TrayView {
            letters: self.letters.update(b as int, (self.letters[b as int] - 1) as u8),
            wildcards: self.wildcards,
            total: (self.total - 1) as u32,
        }
    }

    /// The tray with one blank less.
    pub open spec fn without_wildcard(self) -> TrayView {
        TrayView {
            letters: self.letters,
            wildcards: (self.wildcards - 1) as u8,
            total: (self.total - 1) as u32,
        }
    }
}

impl TrayRemaining {
    #[verifier::type_invariant]
    spec fn inv(self) -> bool {
        self@.wf()
    }

    /// A tray with `letters[b]` letters `b` and `n_wildcards` blanks.
    pub fn new(letters: [u8; 256], n_wildcards: u8) -> (r: TrayRemaining)
        ensures
            r@.wf(),
            r@.letters == letters@,
            r@.wildcards == n_wildcards,
    {
        let mut total: u32 = 0;
        let mut i: usize = 0;
        while i < 256
            invariant
                i <= 256,
                total == seq_sum(letters@.take(i as int)),
                total <= 255 * i,
            decreases 256 - i,
        {
            proof {
                assert(letters@.take(i + 1).drop_last() =~= letters@.take(i as int));
            }
            total = total + letters[i] as u32;
            i += 1;
        }
        proof {
            assert(letters@.take(256) =~= letters@);
        }
        TrayRemaining { letters, n_wildcards, n_total: total + n_wildcards as u32 }
    }

    /// The tray with one letter `letter` less, if it holds one.
    pub fn remove(&self, letter: u8) -> (r: Option<TrayRemaining>)
        ensures
            r is Some <==> self@.letters[letter as int] > 0,
            r matches Some(t) ==> t@ == self@.without_letter(letter) && t@.wf(),
    {
        proof {
            use_type_invariant(self);
        }
        if self.letters[letter as usize] > 0 {
            proof {
                lemma_seq_sum_update(self@.letters, letter as int, (self@.letters[letter as int] - 1) as u8);
            }
            let mut letters = self.letters;
            letters[letter as usize] = self.letters[letter as usize] - 1;
            proof {
                assert(letters@ =~= self@.without_letter(letter).letters);
            }
            Some(TrayRemaining { letters, n_wildcards: self.n_wildcards, n_total: self.n_total - 1 })
        } else {
            None
        }
    }

    /// The tray with one blank less, if it holds one.
    pub fn remove_wildcard(&self) -> (r: Option<TrayRemaining>)
        ensures
            r is Some <==> self@.wildcards > 0,
            r matches Some(t) ==> t@ == self@.without_wildcard() && t@.wf(),
    {
        proof {
            use_type_invariant(self);
            lemma_seq_sum_bounds(self@.letters);
        }
        if self.n_wildcards > 0 {
            Some(TrayRemaining { letters: self.letters, n_wildcards: self.n_wildcards - 1, n_total: self.n_total - 1 })
        } else {
            None
        }
    }

    /// The number of tiles left.
    pub fn total(&self) -> (r: u32)
        ensures
            r == self@.total,
            self@.wf(),
    {
        proof {
            use_type_invariant(self);
        }
        self.n_total
    }
}

/// Why a blank is played in a word.
#[derive(Copy, Clone, PartialEq, Eq, Structural, Debug)]
pub enum WildcardAssignment {
    /// The blank at this index of the word stands for a letter that the
    /// cross word there does not allow.
    Intersection(usize),
    /// The blank stands for this letter, which the tray lacks.
    MissingLetter(u8),
}

/// The blanks assigned so far, the latest first.
#[derive(PartialEq, Eq, Debug)]
pub enum WildcardAssignmentList {
    Empty,
    Elem(WildcardAssignment, Box<WildcardAssignmentList>),
}

/// The assignments of a list, the latest first.
pub open spec fn assignments_of(l: WildcardAssignmentList) -> Seq<WildcardAssignment>
    decreases l,
{
    match l {
        WildcardAssignmentList::Empty => Seq::empty(),
        WildcardAssignmentList::Elem(a, rest) => seq![a] + assignments_of(*rest),
    }
}

impl View for WildcardAssignmentList {
    type V = Seq<WildcardAssignment>;

    open spec fn view(&self) -> Seq<WildcardAssignment> {
        assignments_of(*self)
    }
}

impl Clone for WildcardAssignmentList {
    fn clone(&self) -> (r: WildcardAssignmentList)
        ensures
            r == *self,
        decreases self,
    {
        match self {
            WildcardAssignmentList::Empty => WildcardAssignmentList::Empty,
            WildcardAssignmentList::Elem(a, rest) => WildcardAssignmentList::Elem(
                *a,
                Box::new((**rest).clone()),
            ),
        }
    }
}

/// The automaton that accepts the words playable from the start of `line`.
#[derive(Debug)]
pub struct ScrabbleAutomata<'line> {
    /// The line from the square where the word starts.
    pub line: &'line [RestrictedSquare],
    /// The tray.
    pub tray: TrayRemaining,
    /// The length a word needs to be attached to the tiles on the board.
    pub min_len: usize,
    /// Whether a blank played now may stand for one letter in the main
    /// word and for another in the cross word.
    pub wildcards_have_multi_meaning: bool,
}

/// Where the automaton stands after some bytes.
#[derive(Debug)]
pub struct ScrabbleAutomataState {
    /// How far along the line.
    pub position: usize,
    /// The blanks assigned.
    pub wildcards: WildcardAssignmentList,
    /// What is left in the tray.
    pub tray: TrayRemaining,
}

impl Clone for ScrabbleAutomataState {
    fn clone(&self) -> (r: ScrabbleAutomataState)
        ensures
            r == *self,
    {
        ScrabbleAutomataState { position: self.position, wildcards: self.wildcards.clone(), tray: self.tray }
    }
}

/// An automaton state as mathematical values.
pub struct StateView {
    pub position: int,
    pub wildcards: Seq<WildcardAssignment>,
    pub tray: TrayView,
}

pub open spec fn state_view(s: Option<ScrabbleAutomataState>) -> Option<StateView> {
    match s {
        Some(st) => Some(StateView { position: st.position as int, wildcards: st.wildcards@, tray: st.tray@ }),
        None => None,
    }
}

/// One step on byte `b`: follow a tile on the board, or take a tile from the
/// tray for an empty square (a blank when the letter is missing, or, with
/// `multi`, when the cross word does not allow the letter).
pub open spec fn step(line: Seq<RestrictedSquare>, multi: bool, s: Option<StateView>, b: u8) -> Option<StateView> {
    match s {
        None => None,
        Some(st) => {
            if st.position < 0 || st.position >= line.len() {
                None
            } else {
                let next = st.position + 1;
                match line[st.position] {
                    RestrictedSquare::Filled(LetterTile::Wildcard) => Some(StateView { position: next, ..st }),
                    RestrictedSquare::Filled(LetterTile::Letter(l)) => if l.0 == b {
                        Some(StateView { position: next, ..st })
                    } else {
                        None
                    },
                    RestrictedSquare::Empty(set) => if set@.is_empty() {
                        None
                    } else if set@.contains(b) {
                        if st.tray.letters[b as int] > 0 {
                            Some(StateView { position: next, wildcards: st.wildcards, tray: st.tray.without_letter(b) })
                        } else if st.tray.wildcards > 0 {
                            Some(StateView {
                                position: next,
                                wildcards: seq![WildcardAssignment::MissingLetter(b)] + st.wildcards,
                                tray: st.tray.without_wildcard(),
                            })
                        } else {
                            None
                        }
                    } else if multi && st.tray.wildcards > 0 {
                        Some(StateView {
                            position: next,
                            wildcards: seq![WildcardAssignment::Intersection(st.position as usize)] + st.wildcards,
                            tray: st.tray.without_wildcard(),
                        })
                    } else {
                        None
                    },
                }
            }
        },
    }
}

/// The state after the bytes of `w`, from `start`.
pub open spec fn run(line: Seq<RestrictedSquare>, multi: bool, start: StateView, w: Seq<u8>) -> Option<StateView>
    decreases w.len(),
{
    if w.len() == 0 {
        Some(start)
    } else {
        step(line, multi, run(line, multi, start, w.drop_last()), w.last())
    }
}

/// A state where a word may end: the next square is not a tile of the board,
/// a tile has been played, and the word is long enough to be attached.
pub open spec fn is_final(line: Seq<RestrictedSquare>, min_len: int, tray_total: u32, s: Option<StateView>) -> bool {
    match s {
        Some(st) => !(0 <= st.position < line.len() && line[st.position] is Filled) && st.tray.total
            != tray_total && st.position >= min_len,
        None => false,
    }
}

impl<'line> ScrabbleAutomata<'line> {
    pub open spec fn start_view(&self) -> StateView {
        StateView { position: 0, wildcards: Seq::empty(), tray: self.tray@ }
    }

    /// The state after the bytes of `w`.
    pub open spec fn run_on(&self, w: Seq<u8>) -> Option<StateView> {
        run(self.line@, self.wildcards_have_multi_meaning, self.start_view(), w)
    }

    /// Whether the automaton accepts `w`.
    pub open spec fn accepts(&self, w: Seq<u8>) -> bool {
        is_final(self.line@, self.min_len as int, self.tray@.total, self.run_on(w))
    }
}

impl<'line> fst::Automaton for ScrabbleAutomata<'line> {
    type State = Option<ScrabbleAutomataState>;

    fn start(&self) -> (r: Option<ScrabbleAutomataState>)
        ensures
            state_view(r) == Some(self.start_view()),
    {
        let r = Some(ScrabbleAutomataState { position: 0, wildcards: WildcardAssignmentList::Empty, tray: self.tray });
        proof {
            assert(WildcardAssignmentList::Empty@ =~= Seq::<WildcardAssignment>::empty());
        }
        r
    }

    fn is_match(&self, state: &Option<ScrabbleAutomataState>) -> (r: bool)
        ensures
            r == is_final(self.line@, self.min_len as int, self.tray@.total, state_view(*state)),
    {
        match state {
            Some(st) => {
                if st.position < self.line.len() {
                    if let RestrictedSquare::Filled(_) = self.line[st.position] {
                        return false;
                    }
                }
                self.tray.total() != st.tray.total() && st.position >= self.min_len
            },
            None => false,
        }
    }

    fn accept(&self, state: &Option<ScrabbleAutomataState>, byte: u8) -> (r: Option<ScrabbleAutomataState>)
        ensures
            state_view(r) == step(self.line@, self.wildcards_have_multi_meaning, state_view(*state), byte),
    {
        let st = match state {
            Some(st) => st,
            None => return None,
        };
        if st.position >= self.line.len() {
            return None;
        }
        let next = st.position + 1;
        match self.line[st.position] {
            RestrictedSquare::Filled(LetterTile::Wildcard) => Some(
                ScrabbleAutomataState { position: next, wildcards: st.wildcards.clone(), tray: st.tray },
            ),
            RestrictedSquare::Filled(LetterTile::Letter(l)) => {
                if l.0 == byte {
                    Some(ScrabbleAutomataState { position: next, wildcards: st.wildcards.clone(), tray: st.tray })
                } else {
                    None
                }
            },
            RestrictedSquare::Empty(letter_set) => {
                if letter_set.is_empty() {
                    None
                } else if letter_set.contains(Letter(byte)) {
                    match st.tray.remove(byte) {
                        Some(tray) => Some(ScrabbleAutomataState { position: next, wildcards: st.wildcards.clone(), tray }),
                        None => match st.tray.remove_wildcard() {
                            Some(tray) => Some(ScrabbleAutomataState {
                                position: next,
                                wildcards: WildcardAssignmentList::Elem(
                                    WildcardAssignment::MissingLetter(byte),
                                    Box::new(st.wildcards.clone()),
                                ),
                                tray,
                            }),
                            None => None,
                        },
                    }
                } else if self.wildcards_have_multi_meaning {
                    match st.tray.remove_wildcard() {
                        Some(tray) => Some(ScrabbleAutomataState {
                            position: next,
                            wildcards: WildcardAssignmentList::Elem(
                                WildcardAssignment::Intersection(st.position),
                                Box::new(st.wildcards.clone()),
                            ),
                            tray,
                        }),
                        None => None,
                    }
                } else {
                    None
                }
            },
        }
    }

    fn can_match(&self, state: &Option<ScrabbleAutomataState>) -> (r: bool)
        ensures
            r == state.is_some(),
    {
        state.is_some()
    }
}

} // verus!

verus! {

/// Whatever word the automaton reads, what is left in the tray is part of
/// the tray it started from: each letter and blank placed on the board was
/// taken from the tray.
pub proof fn lemma_played_tiles_come_from_tray(
    line: Seq<RestrictedSquare>,
    multi: bool,
    start: StateView,
    w: Seq<u8>,
)
    requires
        start.tray.wf(),
    ensures
        run(line, multi, start, w) matches Some(st) ==> {
            &&& st.tray.wf()
            &&& st.tray.wildcards <= start.tray.wildcards
            &&& forall|b: u8| #[trigger] st.tray.letters[b as int] <= start.tray.letters[b as int]
            &&& start.tray.total - st.tray.total == (start.tray.wildcards - st.tray.wildcards) + seq_sum(start.tray.letters) - seq_sum(st.tray.letters)
        },
    decreases w.len(),
{
    if w.len() > 0 {
        lemma_played_tiles_come_from_tray(line, multi, start, w.drop_last());
        let prev = run(line, multi, start, w.drop_last());
        if let Some(st) = prev {
            let b = w.last();
            if st.tray.letters[b as int] > 0 {
                lemma_seq_sum_update(st.tray.letters, b as int, (st.tray.letters[b as int] - 1) as u8);
            }
            lemma_seq_sum_bounds(st.tray.letters);
        }
    }
}

} // verus!

verus! {

/// The automaton spends a blank on a letter only when the tray holds no
/// such letter: it never uses more blanks than the word needs.
pub proof fn lemma_blank_only_for_missing_letter(
    line: Seq<RestrictedSquare>,
    multi: bool,
    st: StateView,
    b: u8,
)
    requires
        step(line, multi, Some(st), b) matches Some(next) && next.wildcards.len() > st.wildcards.len()
            && next.wildcards[0] == WildcardAssignment::MissingLetter(b),
    ensures
        st.tray.letters[b as int] == 0,
        st.tray.wildcards > 0,
{
}

} // verus!

verus! {

/// A word the automaton reads from the start of the line lies on the line:
/// it ends where the automaton stands, agrees with every letter tile of the
/// board it crosses, and on each empty square either its letter completes
/// the cross word there or a blank placed there is recorded as standing for
/// another letter across.
pub proof fn lemma_read_word_fits_line(line: Seq<RestrictedSquare>, multi: bool, start: StateView, w: Seq<u8>)
    requires
        start.position == 0,
    ensures
        run(line, multi, start, w) matches Some(st) ==> {
            &&& st.position == w.len()
            &&& w.len() <= line.len()
            &&& forall|j: int| 0 <= j < w.len() ==> (#[trigger] line[j] matches RestrictedSquare::Filled(LetterTile::Letter(l)) ==> l.0 == w[j])
            &&& forall|j: int| 0 <= j < w.len() ==> (#[trigger] line[j] matches RestrictedSquare::Empty(set) ==> set@.contains(w[j])
                || st.wildcards.contains(WildcardAssignment::Intersection(j as usize)))
        },
    decreases w.len(),
{
    if w.len() > 0 {
        let v = w.drop_last();
        lemma_read_word_fits_line(line, multi, start, v);
        if let Some(prev) = run(line, multi, start, v) {
            if let Some(st) = run(line, multi, start, w) {
                assert forall|j: int| 0 <= j < v.len() implies w[j] == v[j] by {}
                assert forall|x: WildcardAssignment| prev.wildcards.contains(x) implies st.wildcards.contains(x) by {
                    if st.wildcards.len() > prev.wildcards.len() {
                        let k = choose|k: int| 0 <= k < prev.wildcards.len() && prev.wildcards[k] == x;
                        assert(st.wildcards[k + 1] == x);
                    }
                }
                let n = v.len() as int;
                if line[n] matches RestrictedSquare::Empty(set) && !set@.contains(w.last()) {
                    assert(st.wildcards[0] == WildcardAssignment::Intersection(n as usize));
                }
            }
        }
    }
}

} // verus!
