use gridrun::almanac::{Almanac, Converter, RangeMap};
use gridrun::games::{calculate_power, parse_colors, parse_game, sum_of_game_powers, Game};
use gridrun::race::get_distance_travelled;
use gridrun::schematic::{
    get_numbers, get_part_symbols, get_position, Number, Position, Schematic, SchematicElement,
};
use gridrun::scratch_scores;
use gridrun::scratchcards;
use gridrun::seed_location;

#[test]
fn test_calculate_power_returns_correct_value() {
    let test_input = Game { id: 0, max_red: 4, max_green: 2, max_blue: 6 };
    let expected = 48;
    let actual = calculate_power(test_input);

    assert_eq!(expected, actual);
}

#[test]
fn test_parse_game_returns_correct_values() {
    let test_data = "Game 1: 3 blue, 4 red; 1 red, 2 green, 6 blue; 2 green";
    let expected = Game { id: 1, max_red: 4, max_green: 2, max_blue: 6 };
    let actual = parse_game(test_data);

    assert_eq!(expected, actual);
}

#[test]
fn test_parse_colors_returns_correct_values_all_values() {
    let test_data = "1 red, 2 green, 6 blue";
    let expected = (1, 2, 6);
    let actual = parse_colors(test_data);

    assert_eq!(expected.0, actual.0);
    assert_eq!(expected.1, actual.1);
    assert_eq!(expected.2, actual.2);
}

#[test]
fn test_parse_colors_returns_correct_values_partial_values() {
    let test_data = "3 blue, 4 red";
    let expected = (4, 0, 3);
    let actual = parse_colors(test_data);

    assert_eq!(expected.0, actual.0);
    assert_eq!(expected.1, actual.1);
    assert_eq!(expected.2, actual.2);
}

#[test]
fn test_data_returns_correct_sum() {
    let test_data = "Game 1: 3 blue, 4 red; 1 red, 2 green, 6 blue; 2 green
        Game 2: 1 blue, 2 green; 3 green, 4 blue, 1 red; 1 green, 1 blue
        Game 3: 8 green, 6 blue, 20 red; 5 blue, 4 red, 13 green; 5 green, 1 red
        Game 4: 1 green, 3 red, 6 blue; 3 green, 6 red; 3 green, 15 blue, 14 red
        Game 5: 6 red, 1 blue, 3 green; 2 blue, 1 red, 2 green";

    let expected = 2286;
    let actual = sum_of_game_powers(test_data);

    assert_eq!(expected, actual);
}

#[test]
fn test_get_position_returns_correct_position_simple() {
    let cols = 10;
    let index = 1;

    let expected = Position(1, 0);
    let actual = get_position(cols, index);

    assert_eq!(expected, actual);
}

#[test]
fn test_get_position_returns_correct_position_complex() {
    let cols = 10;
    let index = 23;

    let expected = Position(3, 2);
    let actual = get_position(cols, index);

    assert_eq!(expected, actual);
}

#[test]
fn test_get_numbers_returns_expected_result() {
    let test_data = "467..114";

    let expected = vec![Number::new(467, Position(0, 0)), Number::new(114, Position(1, 1))];
    let expected_len = 2;

    let actual = get_numbers(test_data, 4);
    let actual_len = actual.len();

    assert_eq!(expected_len, actual_len);
    assert_eq!(expected[0], actual[0]);
    assert_eq!(expected[1], actual[1]);
}

#[test]
fn test_get_part_symbols_returns_expected_result() {
    let test_data = "467./114";

    let expected = [Position(0, 1)];
    let expected_len = 1;

    let actual = get_part_symbols(test_data, 4);
    let actual_len = actual.len();

    assert_eq!(expected_len, actual_len);
    assert_eq!(expected[0], actual[0]);
}

#[test]
fn test_schematic_from_returns_expected_result() {
    let test_data = "467.\n/114";

    let expected_numbers = vec![Number::new(467, Position(0, 0)), Number::new(114, Position(1, 1))];
    let expected_numbers_len = 2;
    let expected_map = vec![
        (Position(0, 0), SchematicElement::Number(0)),
        (Position(1, 1), SchematicElement::Number(1)),
        (Position(0, 1), SchematicElement::Symbol),
    ];
    let expected_map_len = 7;

    let actual = Schematic::from(test_data);
    let actual_numbers_len = actual.numbers.len();
    let actual_map_len = actual.map.len();

    assert_eq!(expected_numbers_len, actual_numbers_len);
    assert_eq!(expected_map_len, actual_map_len);
    assert_eq!(expected_numbers[0], actual.numbers[0]);
    assert_eq!(expected_numbers[1], actual.numbers[1]);
    assert!(actual.map.contains_key(expected_map[0].0));
    assert_eq!(Some(&expected_map[0].1), actual.map.get(expected_map[0].0));
    assert!(actual.map.contains_key(expected_map[1].0));
    assert_eq!(Some(&expected_map[1].1), actual.map.get(expected_map[1].0));
    assert!(actual.map.contains_key(expected_map[2].0));
    assert_eq!(Some(&expected_map[2].1), actual.map.get(expected_map[2].0));
}

#[test]
fn test_provided_test_data_returns_expected_result() {
    let test_data = "467..114..\n...*......\n..35..633.\n......#...\n617*......\n.....+.58.\n..592.....\n......755.\n...$.*....\n.664.598..";
    let expected_sum = 4361;
    let mut schematic = Schematic::from(test_data);
    schematic.calculate_parts();
    let actual_sum = schematic.get_part_sum();

    assert_eq!(expected_sum, actual_sum);
}

#[test]
fn main_test_parse_card_number_returns_correctly_single_digit() {
    let test_data = "Card 3";
    let expected = 3;
    let actual = scratchcards::parse_card_number(test_data);

    assert_eq!(expected, actual);
}

#[test]
fn main_test_parse_card_number_returns_correctly_multi_digit() {
    let test_data = "Card 111";
    let expected = 111;
    let actual = scratchcards::parse_card_number(test_data);

    assert_eq!(expected, actual);
}

#[test]
fn main_test_parse_game_score_returns_correct_score() {
    let test_data = "41 48 83 86 17 | 83 86  6 31 17  9 48 53";
    let expected = 8;
    let actual = scratch_scores::parse_game_score(test_data);

    assert_eq!(expected, actual);
}

// The cascading-copies variant scores a card by its raw match count.
#[test]
fn test_match_count_score() {
    let test_data = "41 48 83 86 17 | 83 86  6 31 17  9 48 53";
    assert_eq!(4, scratchcards::parse_game_score(test_data));
    assert_eq!(0, scratchcards::parse_game_score("no separator here"));
}

#[test]
fn test_parse_card_number_returns_correctly_single_digit() {
    let test_data = "Card 3";
    let expected = 3;
    let actual = scratch_scores::parse_card_number(test_data);

    assert_eq!(expected, actual);
}

#[test]
fn test_parse_card_number_returns_correctly_multi_digit() {
    let test_data = "Card 111";
    let expected = 111;
    let actual = scratch_scores::parse_card_number(test_data);

    assert_eq!(expected, actual);
}

#[test]
fn test_calculate_score_returns_true_for_1_win() {
    let expected = 1;
    let actual = scratch_scores::calculate_score(1);

    assert_eq!(expected, actual);
}

#[test]
fn test_calculate_score_returns_true_for_2_win() {
    let expected = 2;
    let actual = scratch_scores::calculate_score(2);

    assert_eq!(expected, actual);
}

#[test]
fn test_calculate_score_returns_true_for_3_win() {
    let expected = 4;
    let actual = scratch_scores::calculate_score(3);

    assert_eq!(expected, actual);
}

#[test]
fn test_parse_game_score_returns_correct_score() {
    let test_data = "41 48 83 86 17 | 83 86  6 31 17  9 48 53";
    let expected = 8;
    let actual = scratch_scores::parse_game_score(test_data);

    assert_eq!(expected, actual);
}

#[test]
fn test_parse_numbers_list_collects_values() {
    let set = scratchcards::parse_numbers_list("41 48 83");
    assert!(set.contains(&41));
    assert!(set.contains(&48));
    assert!(set.contains(&83));
    assert_eq!(set.len(), 3);
    let set = scratch_scores::parse_numbers_list("7 7 9");
    assert_eq!(set.len(), 2);
}

const ALMANAC_INPUT: &str = "seeds: 79 14 55 13\n\nseed-to-soil map:\n50 98 2\n52 50 48\n\nsoil-to-fertilizer map:\n0 15 37\n37 52 2\n39 0 15\n\nfertilizer-to-water map:\n49 53 8\n0 11 42\n42 0 7\n57 7 4\n\nwater-to-light map:\n88 18 7\n18 25 70\n\nlight-to-temperature map:\n45 77 23\n81 45 19\n68 64 13\n\ntemperature-to-humidity map:\n0 69 1\n1 0 69\n\nhumidity-to-location map:\n60 56 37\n56 93 4\n";

fn expected_almanac() -> Almanac {
    Almanac {
        seeds: vec![79, 14, 55, 13],
        seed_to_soil_map: Converter::new(vec![RangeMap::new(50, 98, 2), RangeMap::new(52, 50, 48)]),
        soil_to_fertilizer_map: Converter::new(vec![
            RangeMap::new(0, 15, 37),
            RangeMap::new(37, 52, 2),
            RangeMap::new(39, 0, 15),
        ]),
        fertilizer_to_water_map: Converter::new(vec![
            RangeMap::new(49, 53, 8),
            RangeMap::new(0, 11, 42),
            RangeMap::new(42, 0, 7),
            RangeMap::new(57, 7, 4),
        ]),
        water_to_light_map: Converter::new(vec![
            RangeMap::new(88, 18, 7),
            RangeMap::new(18, 25, 70),
        ]),
        light_to_temperature_map: Converter::new(vec![
            RangeMap::new(45, 77, 23),
            RangeMap::new(81, 45, 19),
            RangeMap::new(68, 64, 13),
        ]),
        temperature_to_humidity_map: Converter::new(vec![
            RangeMap::new(0, 69, 1),
            RangeMap::new(1, 0, 69),
        ]),
        humidity_to_location_map: Converter::new(vec![
            RangeMap::new(60, 56, 37),
            RangeMap::new(56, 93, 4),
        ]),
    }
}

#[test]
fn test_parse_almanac() {
    let expected = expected_almanac();
    let actual = gridrun::almanac::parse_almanac(ALMANAC_INPUT).unwrap();
    assert_eq!(actual, expected);
}

#[test]
fn test_parse_almanac_rejects_bad_shapes() {
    assert!(gridrun::almanac::parse_almanac("").is_err());
    assert!(gridrun::almanac::parse_almanac("seeds: 1 2\n\nwrong map:\n1 2 3\n").is_err());
    assert!(gridrun::almanac::parse_almanac("seeds: abc\n").is_err());
}

#[test]
fn test_calculate() {
    assert_eq!(35, seed_location::calculate(ALMANAC_INPUT));
}

#[test]
fn test_calculate_seed_locations() {
    assert_eq!(expected_almanac().calculate_seed_locations(), vec![82, 43, 86, 35]);
}

#[test]
fn test_convert_within_range() {
    let converter = Converter::new(vec![
        RangeMap::new(50, 98, 2),
        RangeMap::new(0, 15, 38),
        RangeMap::new(49, 53, 8),
    ]);
    // First map
    assert_eq!(converter.convert(98), 50);
    assert_eq!(converter.convert(99), 51);

    // Second map
    assert_eq!(converter.convert(15), 0);
    assert_eq!(converter.convert(16), 1);
    assert_eq!(converter.convert(52), 37);

    // Third map
    assert_eq!(converter.convert(53), 49);
    assert_eq!(converter.convert(54), 50);
    assert_eq!(converter.convert(60), 56);
}

#[test]
fn test_convert_out_of_range() {
    let converter = Converter::new(vec![
        RangeMap::new(50, 98, 2),
        RangeMap::new(0, 15, 38),
        RangeMap::new(49, 53, 8),
    ]);
    assert_eq!(converter.convert(97), 97);
    assert_eq!(converter.convert(100), 100);
    assert_eq!(converter.convert(14), 14);
    assert_eq!(converter.convert(61), 61);
}

#[test]
fn test_convert() {
    let map = RangeMap::new(50, 98, 2);
    assert_eq!(map.convert(98), Some(50));
    assert_eq!(map.convert(99), Some(51));
    assert_eq!(map.convert(100), None);
}

#[test]
fn test_get_distance_travelled() {
    assert_eq!(get_distance_travelled(0, 7), 0);
    assert_eq!(get_distance_travelled(1, 7), 6);
    assert_eq!(get_distance_travelled(2, 7), 10);
    assert_eq!(get_distance_travelled(3, 7), 12);
    assert_eq!(get_distance_travelled(4, 7), 12);
    assert_eq!(get_distance_travelled(5, 7), 10);
    assert_eq!(get_distance_travelled(6, 7), 6);
    assert_eq!(get_distance_travelled(7, 7), 0);
}

#[test]
fn test_beats_record() {
    assert!(gridrun::race::beats_record(10, 9));
    assert!(!gridrun::race::beats_record(9, 9));
}
