use cell_automata::cell::CellState;
use cell_automata::indexes::Indexes;
use cell_automata::rule::{NeighbourMethod, Rule};

#[test]
fn new_indexes_from_slice() {
    let indexes = Indexes::new(&[1, 2, 3, 26]);
    let mut expected = [false; 27];
    expected[1] = true;
    expected[2] = true;
    expected[3] = true;
    expected[4] = false;
    expected[26] = true;

    assert_eq!(indexes.0, expected);
}

#[test]
fn new_indexes_from_range() {
    let indexes = Indexes::from_range(1..=3);
    let mut expected = [false; 27];
    expected[1] = true;
    expected[2] = true;
    expected[3] = true;

    assert_eq!(indexes.0, expected);
}

#[test]
fn birth_rule() {
    let rule = Rule::default();

    assert_eq!(rule.apply_birth_rule(0), CellState::Empty);
    assert_eq!(rule.apply_birth_rule(4), CellState::Alive);
    assert_eq!(rule.apply_birth_rule(5), CellState::Empty);
    assert_eq!(rule.apply_birth_rule(9), CellState::Alive);
}

#[test]
fn survival_rule() {
    let rule = Rule::default();

    assert_eq!(
        rule.apply_survival_rule(0),
        CellState::Dying(rule.states - 2)
    );
    assert_eq!(rule.apply_survival_rule(2), CellState::Alive);
}

#[test]
fn dying_rule() {
    let rule = Rule::default();

    assert_eq!(rule.apply_dying_rule(1), CellState::Empty);
    assert_eq!(rule.apply_dying_rule(3), CellState::Dying(2));
}

#[test]
fn indexes_to_string() {
    let indexes = Indexes::new(&[1, 2, 4, 5, 6, 7, 15]);
    assert_eq!(indexes.to_string(), "1,2,4-7,15".to_string());

    let indexes = Indexes::from_range(9..=26);
    assert_eq!(indexes.to_string(), "9-26".to_string());
}

#[test]
fn indexes_from_str() {
    let inputs = "1,2,4-7,15";
    let indexes = Indexes::new(&[1, 2, 4, 5, 6, 7, 15]);
    assert_eq!(Indexes::parse_str(&inputs), Some(indexes));

    let inputs = "9-26";
    let indexes = Indexes::from_range(9..=26);
    assert_eq!(Indexes::parse_str(&inputs), Some(indexes));
}

/// The transition table of the reference rule (states = 10,
/// survival = {2, 6, 9}, birth = {4, 6, 8, 9, 10}).
#[test]
fn transition_table() {
    let rule = Rule {
        survival_rule: Indexes::new(&[2, 6, 9]),
        birth_rule: Indexes::new(&[4, 6, 8, 9, 10]),
        states: 10,
        neighbour_method: NeighbourMethod::Moore,
    };
    assert_eq!(rule.apply_birth_rule(0), CellState::Empty);
    assert_eq!(rule.apply_birth_rule(4), CellState::Alive);
    assert_eq!(rule.apply_birth_rule(5), CellState::Empty);
    assert_eq!(rule.apply_birth_rule(9), CellState::Alive);
    assert_eq!(rule.apply_survival_rule(0), CellState::Dying(8));
    assert_eq!(rule.apply_survival_rule(2), CellState::Alive);
    assert_eq!(rule.apply_dying_rule(1), CellState::Empty);
    assert_eq!(rule.apply_dying_rule(3), CellState::Dying(2));
}

/// With exactly two states a cell that leaves survival skips the decay
/// trail and is immediately empty.
#[test]
fn survival_two_states() {
    let rule = Rule {
        survival_rule: Indexes::new(&[2]),
        birth_rule: Indexes::new(&[4]),
        states: 2,
        neighbour_method: NeighbourMethod::Moore,
    };
    assert_eq!(rule.apply_survival_rule(0), CellState::Empty);
    assert_eq!(rule.apply_survival_rule(2), CellState::Alive);
}

#[test]
fn max_neighbours() {
    let mut rule = Rule::default();
    assert_eq!(rule.get_max_neighbours(), 26);
    rule.neighbour_method = NeighbourMethod::VonNeumann;
    assert_eq!(rule.get_max_neighbours(), 6);
}

#[test]
fn indexes_has() {
    let indexes = Indexes::new(&[0, 13, 26]);
    assert!(indexes.has(0));
    assert!(!indexes.has(1));
    assert!(indexes.has(13));
    assert!(indexes.has(26));
}

#[test]
fn parse_whitespace_and_plus() {
    assert_eq!(
        Indexes::parse_str(" 4 - 7 , 15 "),
        Some(Indexes::new(&[4, 5, 6, 7, 15]))
    );
    assert_eq!(Indexes::parse_str("+5"), Some(Indexes::new(&[5])));
}

#[test]
fn parse_empty_is_empty_set() {
    assert_eq!(Indexes::parse_str(""), Some(Indexes::default()));
}

#[test]
fn parse_reversed_range_is_empty() {
    assert_eq!(Indexes::parse_str("7-4"), Some(Indexes::default()));
}

#[test]
fn parse_rejects_bad_tokens() {
    assert!(Indexes::parse_str("x").is_none());
    assert!(Indexes::parse_str("1,,2").is_none());
    assert!(Indexes::parse_str("27").is_none());
    assert!(Indexes::parse_str("0-27").is_none());
    assert!(Indexes::parse_str("1,-2").is_none());
    assert!(Indexes::parse_str("4-").is_none());
    assert!(Indexes::parse_str("1 5").is_none());
    assert!(Indexes::parse_str(",").is_none());
}

/// Dash ranges and bare pairs parse identically; only the bare form is
/// canonical for runs of two.
#[test]
fn length_two_runs_serialize_as_bare_numbers() {
    assert_eq!(Indexes::parse_str("4-5"), Indexes::parse_str("4,5"));
    assert_eq!(Indexes::new(&[4, 5]).to_string(), "4,5");
    assert_eq!(Indexes::new(&[4, 5, 6]).to_string(), "4-6");
}

/// Round trips: parsing the canonical form of a set gives the set back.
#[test]
fn serialize_parse_round_trip() {
    let cases: Vec<Indexes> = vec![
        Indexes::default(),
        Indexes::new(&[0]),
        Indexes::new(&[26]),
        Indexes::new(&[0, 26]),
        Indexes::new(&[1, 2, 4, 5, 6, 7, 15]),
        Indexes::new(&[9, 10, 11, 12, 13, 14, 15, 16, 17, 18, 19, 20]),
        Indexes::from_range(0..=26),
        Indexes::new(&[0, 2, 4, 6, 8, 10, 12, 14, 16, 18, 20, 22, 24, 26]),
    ];
    for set in cases {
        assert_eq!(Indexes::parse_str(&set.to_string()), Some(set));
    }
}
