use scrabble::solver::letter_set::LetterSet;
use scrabble::solver::restrictionner::find_restrictions;
use scrabble::solver::word_finder::{
    ScrabbleAutomata, TrayRemaining, WildcardAssignment, WildcardAssignmentList,
};
use scrabble::solver::RestrictedSquare;
use scrabble::{Direction, Letter, LetterTile, Placement, Position, Square};

use fst::{IntoStreamer, Streamer};

#[test]
fn test_alignement() {
    let p1 = Position { row: 3, col: 4 };
    let p2 = Position { row: 4, col: 4 };
    let p3 = Position { row: 8, col: 4 };
    let p4 = Position { row: 3, col: 6 };

    assert_eq!(Placement::find_alignment(vec![]), None);
    assert_eq!(Placement::find_alignment(vec![p1]), Some(Err(p1)));
    assert_eq!(Placement::find_alignment(vec![p1, p1]), Some(Err(p1)));
    assert_eq!(
        Placement::find_alignment(vec![p1, p2]),
        Some(Ok(Placement(p1, Direction::Vertical))),
    );
    assert_eq!(
        Placement::find_alignment(vec![p2, p1, p3]),
        Some(Ok(Placement(p1, Direction::Vertical))),
    );
    assert_eq!(
        Placement::find_alignment(vec![p2, p3, p1]),
        Some(Ok(Placement(p1, Direction::Vertical))),
    );
    assert_eq!(
        Placement::find_alignment(vec![p3, p2]),
        Some(Ok(Placement(p2, Direction::Vertical))),
    );
    assert_eq!(
        Placement::find_alignment(vec![p1, p4]),
        Some(Ok(Placement(p1, Direction::Horizontal))),
    );
    assert_eq!(Placement::find_alignment(vec![p2, p4]), None);
    assert_eq!(Placement::find_alignment(vec![p1, p2, p4]), None);
}

#[test]
fn letter_set() {
    let empty = LetterSet::empty();
    for l in 0..=255u8 {
        assert_eq!(empty.contains(Letter(l)), false);
    }
    assert!(empty.is_empty());
    assert!(!empty.is_any());

    let some = vec![6, 42, 17, 17, 230];
    let letters: Vec<Letter> = some.iter().map(|&i| Letter(i)).collect();
    let not_empty = LetterSet::from_many(&letters);
    for &i in &some {
        assert!(not_empty.contains(Letter(i)));
    }
    for l in 0..=255u8 {
        if some.iter().any(|&i| i == l) {
            continue;
        }
        assert_eq!(not_empty.contains(Letter(l)), false);
    }
    assert!(!not_empty.is_empty());
    assert!(!not_empty.is_any());

    let any = LetterSet::any();
    for l in 0..=255u8 {
        assert!(any.contains(Letter(l)));
    }
    assert!(!any.is_empty());
    assert!(any.is_any());
}

fn set_of(bytes: &[u8]) -> LetterSet {
    let letters: Vec<Letter> = bytes.iter().map(|&b| Letter(b)).collect();
    LetterSet::from_many(&letters)
}

#[test]
fn restrictionner_test() {
    let mut words = vec!["lore", "love", "elle", "bles"];
    words.sort_unstable();
    let dict = fst::Set::from_iter(words).unwrap();

    let line = [
        Square::Filled(LetterTile::Wildcard),
        Square::Empty,
        Square::Empty,
        Square::Filled(LetterTile::Wildcard),
        Square::Filled(LetterTile::Letter(Letter(b'l'))),
        Square::Filled(LetterTile::Letter(Letter(b'e'))),
        Square::Empty,
        Square::Empty,
        Square::Empty,
        Square::Filled(LetterTile::Letter(Letter(b'l'))),
        Square::Filled(LetterTile::Letter(Letter(b'o'))),
        Square::Empty,
        Square::Filled(LetterTile::Letter(Letter(b'e'))),
    ];
    let mut restr = [RestrictedSquare::Empty(LetterSet::empty()); 13];

    find_restrictions(&line, &mut restr, &dict);

    assert_eq!(
        restr,
        [
            RestrictedSquare::Filled(LetterTile::Wildcard),
            RestrictedSquare::Empty(LetterSet::empty()),
            RestrictedSquare::Empty(set_of(b"e")),
            RestrictedSquare::Filled(LetterTile::Wildcard),
            RestrictedSquare::Filled(LetterTile::Letter(Letter(b'l'))),
            RestrictedSquare::Filled(LetterTile::Letter(Letter(b'e'))),
            RestrictedSquare::Empty(set_of(b"s")),
            RestrictedSquare::Empty(LetterSet::alphabet()),
            RestrictedSquare::Empty(LetterSet::empty()),
            RestrictedSquare::Filled(LetterTile::Letter(Letter(b'l'))),
            RestrictedSquare::Filled(LetterTile::Letter(Letter(b'o'))),
            RestrictedSquare::Empty(set_of(b"vr")),
            RestrictedSquare::Filled(LetterTile::Letter(Letter(b'e'))),
        ]
    );
}

#[test]
fn word_finder_test() {
    let line = [
        RestrictedSquare::Empty(set_of(b"abdfghklmopqstx")),
        RestrictedSquare::Empty(set_of(b"abdefghijklmnopqrstuwxyz")),
        RestrictedSquare::Empty(set_of(b"a")),
        RestrictedSquare::Empty(LetterSet::any()),
        RestrictedSquare::Empty(LetterSet::any()),
        RestrictedSquare::Empty(LetterSet::any()),
    ];

    let tray = TrayRemaining::new([1; 256], 1);
    assert_eq!(tray.total(), 257);
    let automaton = ScrabbleAutomata {
        line: &line[..],
        tray,
        min_len: 0,
        wildcards_have_multi_meaning: true,
    };

    let dict = fst::Set::from_iter(vec!["tepa"]).unwrap();
    let mut x = dict.search_with_state(automaton).into_stream();
    let mut acc = vec![];
    while let Some(w) = x.next() {
        acc.push((
            std::str::from_utf8(w.0).unwrap().to_string(),
            w.1.expect("reached valid state"),
        ))
    }

    assert_eq!(acc.len(), 1);
    assert_eq!(acc[0].0, "tepa");
    assert_eq!(acc[0].1.position, 4);
    assert_eq!(
        acc[0].1.wildcards,
        WildcardAssignmentList::Elem(
            WildcardAssignment::Intersection(2),
            Box::new(WildcardAssignmentList::Empty)
        ),
    );
}
