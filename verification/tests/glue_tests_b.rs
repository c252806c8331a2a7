use gridrun::calibration::{
    calculate_calibration_sum, read_calibration_values, CalibrationValue,
};
use gridrun::calibration_words;
use gridrun::camel::{calculate_winnings, from_char, parse, Hand, HandType};
use gridrun::multi_network;
use gridrun::network::{self, Direction, NodeTable};
use gridrun::sequences::{extrapolate_sequences, finite_differences};
use gridrun::springs::{Row, Spring};

const CAMEL_DATA: &str = "32T3K 765\nT55J5 684\nKK677 28\nKTJJT 220\nQQQJA 483";

#[test]
fn test_parse_first_hand() {
    let expected = Hand::new(vec![3, 2, 10, 3, 13], 765);

    let actual = &parse(CAMEL_DATA)[0];

    assert_eq!(expected, *actual);
}

#[test]
fn test_parse_all_hands() {
    let expected = vec![
        Hand::new(vec![3, 2, 10, 3, 13], 765),
        Hand::new(vec![10, 5, 5, 1, 5], 684),
        Hand::new(vec![13, 13, 6, 7, 7], 28),
        Hand::new(vec![13, 10, 1, 1, 10], 220),
        Hand::new(vec![12, 12, 12, 1, 14], 483),
    ];

    let actual = parse(CAMEL_DATA);

    assert_eq!(expected, actual);
}

#[test]
fn test_hand_hex_value_returns_correctly() {
    let hand = Hand::new(vec![3, 2, 10, 3, 13], 765);

    assert_eq!(hand.hex_value, 0x32A3D);
}

#[test]
fn test_hand_hex_comparison_returns_highest_hand() {
    let hands = vec![Hand::new(vec![14, 2, 2], 0), Hand::new(vec![2, 2, 14], 0)];

    assert!(hands[0] > hands[1]);
    assert!(hands[1] < hands[0]);
}

#[test]
fn test_hand_hex_comparison_second_card_higher() {
    let hands = vec![Hand::new(vec![2, 3, 2], 0), Hand::new(vec![2, 2, 14], 0)];

    assert!(hands[0] > hands[1]);
    assert!(hands[1] < hands[0]);
}

#[test]
fn test_hand_type_ordering() {
    let hands = vec![Hand::new(vec![3, 3, 3], 0), Hand::new(vec![1, 14, 14], 0)];

    assert!(hands[0] > hands[1]);
    assert!(hands[1] < hands[0]);
}

#[test]
fn test_hand_type_from_hand() {
    let hands = vec![
        [2, 2, 2, 2, 2], // Five of a kind
        [2, 2, 2, 2, 3], // Four of a kind
        [2, 2, 2, 3, 3], // Full house
        [4, 2, 3, 3, 3], // Three of a kind
        [4, 4, 2, 2, 3], // Two pair
        [2, 2, 3, 4, 5], // One pair
        [2, 3, 4, 5, 6], // High card
    ];

    assert_eq!(HandType::FiveOfAKind, HandType::from_hand(&hands[0]));
    assert_eq!(HandType::FourOfAKind, HandType::from_hand(&hands[1]));
    assert_eq!(HandType::FullHouse, HandType::from_hand(&hands[2]));
    assert_eq!(HandType::ThreeOfAKind, HandType::from_hand(&hands[3]));
    assert_eq!(HandType::TwoPair, HandType::from_hand(&hands[4]));
    assert_eq!(HandType::OnePair, HandType::from_hand(&hands[5]));
    assert_eq!(HandType::HighCard, HandType::from_hand(&hands[6]));
}

#[test]
fn test_hand_type_from_hand_with_jokers() {
    let hands = [
        [1, 2, 2, 2, 2], // Five of a kind
        [1, 2, 2, 2, 3], // Four of a kind
        [1, 2, 2, 3, 3], // Full house
        [4, 2, 1, 3, 3], // Three of a kind
        [1, 2, 3, 4, 5],
    ];

    assert_eq!(HandType::FiveOfAKind, HandType::from_hand(&hands[0]));
    assert_eq!(HandType::FourOfAKind, HandType::from_hand(&hands[1]));
    assert_eq!(HandType::FullHouse, HandType::from_hand(&hands[2]));
    assert_eq!(HandType::ThreeOfAKind, HandType::from_hand(&hands[3]));
    assert_eq!(HandType::OnePair, HandType::from_hand(&hands[4]));
}

#[test]
fn test_hand_sort() {
    let mut hands = vec![
        Hand::new(vec![2, 2, 2, 2, 3], 0), // Four of a kind
        Hand::new(vec![2, 2, 2, 2, 2], 0), // Five of a kind
        Hand::new(vec![1, 1, 2, 2, 3], 0), // Four of a kind (2 jokers)
        Hand::new(vec![1, 2, 3, 3, 3], 0), // Four of a kind (1 joker)
        Hand::new(vec![1, 1, 3, 4, 5], 0), // Three of a kind (2 jokers)
        Hand::new(vec![1, 2, 3, 4, 5], 0), // Pair (1 joker)
        Hand::new(vec![1, 1, 2, 2, 3], 0), // Four of a kind (2 jokers)
        Hand::new(vec![2, 2, 2, 3, 3], 0), // Full house
    ];

    let expected = vec![
        Hand::new(vec![1, 2, 3, 4, 5], 0), // Pair (1 joker)
        Hand::new(vec![1, 1, 3, 4, 5], 0), // Three of a kind (2 jokers)
        Hand::new(vec![2, 2, 2, 3, 3], 0), // Full house
        Hand::new(vec![1, 1, 2, 2, 3], 0), // Four of a kind (2 jokers)
        Hand::new(vec![1, 1, 2, 2, 3], 0), // Four of a kind (2 jokers)
        Hand::new(vec![1, 2, 3, 3, 3], 0), // Four of a kind (1 joker)
        Hand::new(vec![2, 2, 2, 2, 3], 0), // Four of a kind
        Hand::new(vec![2, 2, 2, 2, 2], 0), // Five of a kind
    ];

    hands.sort();

    assert_eq!(expected, hands);
}

#[test]
fn test_calculate_total_winnings() {
    let mut hands = parse(CAMEL_DATA);

    hands.sort();

    for hand in &hands {
        assert!(hand.cards.len() == 5);
    }
    assert_eq!(hands.len(), 5);
    assert_eq!(calculate_winnings(&hands), 5905);
}

#[test]
fn test_data_correct_hands() {
    let mut hands = parse(CAMEL_DATA);

    let expected = vec![
        Hand::new(vec![3, 2, 10, 3, 13], 765),
        Hand::new(vec![10, 5, 5, 1, 5], 684),
        Hand::new(vec![13, 13, 6, 7, 7], 28),
        Hand::new(vec![13, 10, 1, 1, 10], 220),
        Hand::new(vec![12, 12, 12, 1, 14], 483),
    ];

    assert_eq!(hands.len(), 5);
    assert_eq!(hands, expected);
    assert_eq!(hands[0].hand_type, HandType::OnePair);
    assert_eq!(hands[1].hand_type, HandType::FourOfAKind);
    assert_eq!(hands[2].hand_type, HandType::TwoPair);
    assert_eq!(hands[3].hand_type, HandType::FourOfAKind);
    assert_eq!(hands[4].hand_type, HandType::FourOfAKind);

    hands.sort();

    let expected_ordered = vec![
        Hand::new(vec![3, 2, 10, 3, 13], 765),
        Hand::new(vec![13, 13, 6, 7, 7], 28),
        Hand::new(vec![10, 5, 5, 1, 5], 684),
        Hand::new(vec![12, 12, 12, 1, 14], 483),
        Hand::new(vec![13, 10, 1, 1, 10], 220),
    ];

    assert_eq!(hands, expected_ordered);
}

#[test]
fn test_from_char_names_every_card() {
    assert_eq!(from_char('J'), Some(1));
    assert_eq!(from_char('T'), Some(10));
    assert_eq!(from_char('A'), Some(14));
    assert_eq!(from_char('x'), None);
}

const NETWORK_INPUT: &str = "RL\n\nAAA = (BBB, CCC)\nBBB = (DDD, EEE)\nCCC = (ZZZ, GGG)\nDDD = (DDD, DDD)\nEEE = (EEE, EEE)\nGGG = (GGG, GGG)\nZZZ = (ZZZ, ZZZ)";

#[test]
fn test_parse_map() {
    let expected_directions = vec![Direction::Right, Direction::Left];
    let (actual_directions, actual_map): (Vec<Direction>, NodeTable) =
        network::parse(NETWORK_INPUT);

    assert_eq!(expected_directions, actual_directions);
    assert_eq!(actual_map.get("AAA"), Some(&("BBB".to_string(), "CCC".to_string())));
    assert_eq!(actual_map.get("BBB"), Some(&("DDD".to_string(), "EEE".to_string())));
    assert_eq!(actual_map.get("CCC"), Some(&("ZZZ".to_string(), "GGG".to_string())));
    assert_eq!(actual_map.get("DDD"), Some(&("DDD".to_string(), "DDD".to_string())));
    assert_eq!(actual_map.get("EEE"), Some(&("EEE".to_string(), "EEE".to_string())));
    assert_eq!(actual_map.get("GGG"), Some(&("GGG".to_string(), "GGG".to_string())));
    assert_eq!(actual_map.get("ZZZ"), Some(&("ZZZ".to_string(), "ZZZ".to_string())));
}

#[test]
fn test_get_steps_to_destination() {
    let (directions, map) = network::parse(NETWORK_INPUT);
    let expected = 2;

    let actual = network::get_steps_to_destination(&directions, &map);

    assert_eq!(Some(expected), actual);
}

const GHOST_INPUT: &str = "LR\n\n11A = (11B, XXX)\n11B = (XXX, 11Z)\n11Z = (11B, XXX)\n22A = (22B, XXX)\n22B = (22C, 22C)\n22C = (22Z, 22Z)\n22Z = (22B, 22B)\nXXX = (XXX, XXX)";

#[test]
fn test_parse_map_directions() {
    let expected_directions =
        vec![multi_network::Direction::Left, multi_network::Direction::Right];

    let map = multi_network::parse(GHOST_INPUT);
    let actual_directions = map.directions;

    assert_eq!(expected_directions, actual_directions);
}

#[test]
fn test_parse_map_nodes() {
    let expected_nodes = vec![
        multi_network::Node {
            id: "11A".to_string(),
            is_terminal: Some(multi_network::Terminal::Start),
        },
        multi_network::Node { id: "11B".to_string(), is_terminal: None },
        multi_network::Node {
            id: "11Z".to_string(),
            is_terminal: Some(multi_network::Terminal::End),
        },
        multi_network::Node {
            id: "22A".to_string(),
            is_terminal: Some(multi_network::Terminal::Start),
        },
        multi_network::Node { id: "22B".to_string(), is_terminal: None },
        multi_network::Node { id: "22C".to_string(), is_terminal: None },
        multi_network::Node {
            id: "22Z".to_string(),
            is_terminal: Some(multi_network::Terminal::End),
        },
        multi_network::Node { id: "XXX".to_string(), is_terminal: None },
    ];

    let map = multi_network::parse(GHOST_INPUT);

    assert_eq!(Some(&expected_nodes[0]), map.get_node("11A"));
    assert_eq!(Some(&expected_nodes[1]), map.get_node("11B"));
    assert_eq!(Some(&expected_nodes[2]), map.get_node("11Z"));
    assert_eq!(Some(&expected_nodes[3]), map.get_node("22A"));
    assert_eq!(Some(&expected_nodes[4]), map.get_node("22B"));
    assert_eq!(Some(&expected_nodes[5]), map.get_node("22C"));
    assert_eq!(Some(&expected_nodes[6]), map.get_node("22Z"));
    assert_eq!(Some(&expected_nodes[7]), map.get_node("XXX"));
}

#[test]
fn test_parse_map_edges() {
    let expected_edges = vec![
        ("11A".to_string(), ("11B".to_string(), "XXX".to_string())),
        ("11B".to_string(), ("XXX".to_string(), "11Z".to_string())),
        ("11Z".to_string(), ("11B".to_string(), "XXX".to_string())),
        ("22A".to_string(), ("22B".to_string(), "XXX".to_string())),
        ("22B".to_string(), ("22C".to_string(), "22C".to_string())),
        ("22C".to_string(), ("22Z".to_string(), "22Z".to_string())),
        ("22Z".to_string(), ("22B".to_string(), "22B".to_string())),
        ("XXX".to_string(), ("XXX".to_string(), "XXX".to_string())),
    ];

    let map = multi_network::parse(GHOST_INPUT);

    for (key, value) in &expected_edges {
        assert_eq!(Some(value), map.get_edges(key));
    }
    assert_eq!(map.edges.len(), expected_edges.len());
}

#[test]
fn main_test_get_steps_to_destination() {
    let map = multi_network::parse(GHOST_INPUT);
    let expected = 6;

    let actual = multi_network::search(&map);

    assert_eq!(Some(expected), actual);
}

#[test]
fn test_lcm_and_gcd() {
    assert_eq!(multi_network::gcd(12, 18), 6);
    assert_eq!(multi_network::gcd(7, 0), 7);
    assert_eq!(multi_network::lcm(4, 6), 12);
    assert_eq!(multi_network::lcm(1, 9), 9);
}

const SEQ_INPUT: &str = "0 3 6 9 12 15\n1 3 6 10 15 21\n10 13 16 21 30 45";

#[test]
fn test_parse_returns_expected_result() {
    let expected = vec![
        vec![0, 3, 6, 9, 12, 15],
        vec![1, 3, 6, 10, 15, 21],
        vec![10, 13, 16, 21, 30, 45],
    ];
    let actual = gridrun::sequences::parse(SEQ_INPUT).expect("input should parse correctly");
    assert_eq!(expected, actual);
}

#[test]
fn test_parse_returns_err_for_invalid_u32() {
    let bad_data = "3 f 2 1\n6 f 4 9";

    let actual = gridrun::sequences::parse(bad_data);
    assert!(actual.is_err())
}

#[test]
fn test_finite_differences_zeros() {
    let expected = vec![0, 0, 0, 0];
    let actual = finite_differences(vec![0, 0, 0]).expect("extending should return a value");

    assert_eq!(expected, actual);
}

#[test]
fn test_finite_differences_linear() {
    let expected = vec![1, 2, 3, 4];
    let actual = finite_differences(vec![1, 2, 3]).expect("extending should return a value");

    assert_eq!(expected, actual)
}

#[test]
fn test_finite_differences_curve() {
    let expected = vec![1, 4, 9, 16, 25, 36];
    let actual =
        finite_differences(vec![1, 4, 9, 16, 25]).expect("extending should return a value");

    assert_eq!(expected, actual)
}

#[test]
fn test_finite_differences_test_data_one() {
    let expected = vec![0, 3, 6, 9, 12, 15, 18];
    let actual =
        finite_differences(vec![0, 3, 6, 9, 12, 15]).expect("extending should return a value");

    assert_eq!(expected, actual)
}

#[test]
fn test_finite_differences_test_data_two() {
    let expected = vec![1, 3, 6, 10, 15, 21, 28];
    let actual =
        finite_differences(vec![1, 3, 6, 10, 15, 21]).expect("extending should return a value");

    assert_eq!(expected, actual)
}

#[test]
fn test_finite_differences_test_data_three() {
    let expected = vec![10, 13, 16, 21, 30, 45, 68];
    let actual =
        finite_differences(vec![10, 13, 16, 21, 30, 45]).expect("extending should return a value");

    assert_eq!(expected, actual)
}

#[test]
fn test_extrapolate_sequences() {
    let test_data = vec![
        vec![0, 3, 6, 9, 12, 15],
        vec![1, 3, 6, 10, 15, 21],
        vec![10, 13, 16, 21, 30, 45],
    ];

    let expected = 114;
    let actual = extrapolate_sequences(test_data);

    assert_eq!(expected, actual);
}

#[test]
fn test_finite_differences_rejects_short_sequences() {
    assert_eq!(finite_differences(vec![]), None);
    assert_eq!(finite_differences(vec![5]), None);
}

#[test]
fn parse_line_returns_correct_value() {
    let test_data = "1abc2";
    let expected = CalibrationValue(12);
    let actual = gridrun::calibration::parse_line(test_data);

    assert_eq!(expected.0, actual.0);
}

#[test]
fn test_calibration_sum_over_lines() {
    let lines = vec![
        "1abc2".to_string(),
        "pqr3stu8vwx".to_string(),
        "a1b2c3d4e5f".to_string(),
        "treb7uchet".to_string(),
    ];
    let values = read_calibration_values(lines);
    assert_eq!(values.len(), 4);
    assert_eq!(calculate_calibration_sum(values), 142);
}

#[test]
fn test_parse_line_returns_correct_mixed_words_numbers() {
    let test_data = "onetwo3";
    let expected = 13;
    let actual = calibration_words::parse_line(test_data);
    assert_eq!(expected, actual);
}

#[test]
fn test_parse_line_returns_correct_overlapping_words() {
    let test_data = "onetwone";
    let expected = 11;
    let actual = calibration_words::parse_line(test_data);
    assert_eq!(expected, actual);
}

#[test]
fn test_parse_line_returns_correct_overlapping_words_with_numbers() {
    let test_data = "onetwone3";
    let expected = 13;
    let actual = calibration_words::parse_line(test_data);
    assert_eq!(expected, actual);
}

#[test]
fn test_parse_line_returns_correct_for_test_values() {
    let test_data = vec![
        ("two1nine", 29),
        ("eightwothree", 83),
        ("abcone2threexyz", 13),
        ("xtwone3four", 24),
        ("4nineeightseven2", 42),
        ("zoneight234", 14),
        ("7pqrstsixteen", 76),
    ];

    for (input, expected) in test_data {
        let actual = calibration_words::parse_line(input);
        assert_eq!(expected, actual);
    }
}

#[test]
fn test_row_from_string() {
    let input = "???.### 1,1,3";
    let expected_springs = vec![
        Spring::Unknown,
        Spring::Unknown,
        Spring::Unknown,
        Spring::Operational,
        Spring::Damaged,
        Spring::Damaged,
        Spring::Damaged,
    ];
    let expected_groups = vec![1, 1, 3];

    let actual = Row::from_str(input).unwrap();

    assert_eq!(expected_springs, actual.springs);
    assert_eq!(expected_groups, actual.contigious_groups);
}

#[test]
fn test_spring_from_char_returns_correctly() {
    let operational = '.';
    let damaged = '#';
    let unknown = '?';

    assert_eq!(Spring::Operational, Spring::try_from(operational).unwrap());
    assert_eq!(Spring::Damaged, Spring::try_from(damaged).unwrap());
    assert_eq!(Spring::Unknown, Spring::try_from(unknown).unwrap());
}

#[test]
fn test_spring_from_char_returns_error_for_invalid_character() {
    let invalid_char = '%';

    assert!(Spring::try_from(invalid_char).is_err())
}
