use gridrun::lens;
use gridrun::lens_boxes::{self, Command, CommandType, LensBox};
use gridrun::mirrors::{
    build_binary_number, calculate_pattern_summary, encode_cells, get_pattern_summary,
    is_reflection_axis, split_and_mirror_binary_pattern_at_least_significant_bit_index, CellType,
    Pattern, ReflectionAxis, Summary,
};
use gridrun::mirrors_smudged;
use gridrun::text;
use gridrun::tiles::TileState;

#[test]
fn test_get_pattern_summary() {
    let columns_to_left = 5;
    let rows_above = 4;

    let expected = 405;
    let actual = get_pattern_summary(columns_to_left, rows_above);

    assert_eq!(expected, actual);
}

#[test]
fn test_get_cell_type_from_char_returns_ok_for_valid_input() {
    assert!(CellType::try_from('.').is_ok());
    assert!(CellType::try_from('#').is_ok());
}

#[test]
fn test_get_cell_type_from_char_returns_err_for_invalid_input() {
    // Whitespace
    assert!(CellType::try_from(' ').is_err());
    // Invalid Character
    assert!(CellType::try_from('a').is_err());
}

#[test]
fn test_is_reflection_axis_returns_true_for_valid_reflection() {
    let axis = 4;
    let row = 0b101100110;

    assert!(is_reflection_axis(row, axis, 9));
}

#[test]
fn test_is_reflection_axis_returns_false_for_invalid_reflection() {
    let axis = 5;
    let row = 0b101100110;

    assert!(!is_reflection_axis(row, axis, 9));
}

#[test]
fn test_build_binary_number() {
    let values = vec![false, true, true, false, false, true, false];
    let expected = 0b0110010;
    let actual = build_binary_number(values);

    assert_eq!(expected, actual);
}

#[test]
fn test_encode_cells() {
    let values = vec![
        CellType::Ash,
        CellType::Rock,
        CellType::Rock,
        CellType::Ash,
        CellType::Rock,
    ];
    let expected = 0b01101;
    let actual = encode_cells(&values);

    assert_eq!(expected, actual);
}

fn three_by_three() -> Vec<Vec<CellType>> {
    vec![
        vec![CellType::Ash, CellType::Rock, CellType::Rock],
        vec![CellType::Rock, CellType::Ash, CellType::Rock],
        vec![CellType::Ash, CellType::Rock, CellType::Ash],
    ]
}

#[test]
fn test_encode_rows() {
    let expected = vec![0b011, 0b101, 0b010];
    let pattern = Pattern::new(three_by_three());

    assert_eq!(expected, pattern.encoded_rows);
}

#[test]
fn test_encode_columns() {
    let expected = vec![0b010, 0b101, 0b110];
    let pattern = Pattern::new(three_by_three());

    assert_eq!(expected, pattern.encoded_cols);
}

#[test]
fn test_get_reflection_axis_returns_some_for_correct_reflection() {
    let pattern = Pattern::from_str(
        "#.##..##.\n..#.##.#.\n##......#\n##......#\n..#.##.#.\n..##..##.\n#.#.##.#.\n",
    )
    .unwrap();
    let actual = pattern.get_reflection_axis();

    assert!(actual.is_some());
    assert_eq!(ReflectionAxis::Vertical(4), actual.unwrap());
}

#[test]
fn test_calculate_columns_left_or_above() {
    let pattern = Pattern::new(three_by_three());

    assert_eq!(
        Summary::Left(2),
        pattern.get_columns_left_or_above(ReflectionAxis::Vertical(1))
    );
    assert_eq!(
        Summary::Above(1),
        pattern.get_columns_left_or_above(ReflectionAxis::Horizontal(2))
    );
    assert_eq!(
        Summary::Left(1),
        pattern.get_columns_left_or_above(ReflectionAxis::Vertical(2))
    );
    assert_eq!(
        Summary::Above(2),
        pattern.get_columns_left_or_above(ReflectionAxis::Horizontal(1))
    );
}

const TWO_PATTERNS: &str = "#.##..##.\n..#.##.#.\n##......#\n##......#\n..#.##.#.\n..##..##.\n#.#.##.#.\n\n#...##..#\n#....#..#\n..##..###\n#####.##.\n#####.##.\n..##..###\n#....#..#\n";

#[test]
fn test_calculate_pattern_summary() {
    let actual = calculate_pattern_summary(TWO_PATTERNS).unwrap();
    let expected = 405;
    assert_eq!(expected, actual);
}

#[test]
fn test_string_to_pattern_to_axis_extreme_left() {
    let input = "..####.##\n....#.#..\n..#......\n....#..#.\n####..#..\n###....#.\n###..##.#\n###...#..\n###.#...#\n###.#...#\n###.#.#..\n###..##.#\n###....#.\n####..#..\n....#..#.\n";

    let pattern = Pattern::from_str(input).unwrap();
    let actual = pattern.get_reflection_axis();
    let expected = Some(ReflectionAxis::Vertical(8));
    let expected_summary = Summary::Left(1);

    assert_eq!(expected, actual);
    assert_eq!(expected_summary, pattern.get_columns_left_or_above(actual.unwrap()));
}

#[test]
fn test_string_to_pattern_to_axis_extreme_right() {
    let input = ".##...#..#...##..\n##..########..###\n##..#..##..#..###\n...##.#..#.##....\n.#...##..##...#..\n..##........##...\n##.###....###.###\n..##...##...##...\n######....##.####\n...##.#..#.##....\n.....#....#......\n...##......##....\n.......##........\n";

    let pattern = Pattern::from_str(input).unwrap();
    let actual = pattern.get_reflection_axis();
    let expected = Some(ReflectionAxis::Vertical(1));
    let expected_summary = Summary::Left(16);
    assert_eq!(expected, actual);
    assert_eq!(expected_summary, pattern.get_columns_left_or_above(actual.unwrap()));
}

#[test]
fn test_string_to_pattern_to_axis_extreme_top() {
    let input = "#...#.##.\n#...#.##.\n..#.#....\n...#.....\n.##.##..#\n##...####\n#.#.#####\n#.##.#...\n.###.....\n#.#.#####\n###.##..#\n.#..##..#\n.#....##.\n";

    let pattern = Pattern::from_str(input).unwrap();
    let actual = pattern.get_reflection_axis();
    let expected = Some(ReflectionAxis::Horizontal(12));
    let expected_summary = Summary::Above(1);

    assert_eq!(expected, actual);
    assert_eq!(expected_summary, pattern.get_columns_left_or_above(actual.unwrap()));
}

#[test]
fn test_string_to_pattern_to_axis_extreme_bottom() {
    let input = ".##...#.#...#\n#######..#.#.\n#..#.######.#\n....###..##.#\n......##.....\n#..##..#...##\n#..####.#....\n###.#..##....\n............#\n#..#..#####.#\n#..#..#####.#\n";

    let pattern = Pattern::from_str(input).unwrap();
    let actual = pattern.get_reflection_axis();
    let expected = Some(ReflectionAxis::Horizontal(1));
    let expected_summary = Summary::Above(10);
    assert_eq!(expected, actual);
    assert_eq!(expected_summary, pattern.get_columns_left_or_above(actual.unwrap()));
}

#[test]
fn test_split_pattern_at_bit_index() {
    let bits = 0b111000100;
    let expected = [
        (0, 0),           // 1
        (0b10, 0),        // 2
        (0, 0b100),       // 3
        (0b0011, 0b0100), // 4
        (0b0111, 0b10),   // 5
        (0b111, 0),       // 6
        (0b11, 0b10),     // 7
        (0b1, 0b1),       // 8
    ];

    for i in 1..9 {
        assert_eq!(
            expected[i - 1],
            split_and_mirror_binary_pattern_at_least_significant_bit_index(bits, 9, i)
        )
    }
}

#[test]
fn test_get_axis_ignores_original_axis() {
    let input = "#.##..##.\n..#.##.#.\n##......#\n##......#\n..#.##.#.\n..##..##.\n#.#.##.#.\n";
    let pattern = Pattern::from_str(input).unwrap();
    let actual = pattern.get_smudged_reflection_axis();
    let expected = Some(ReflectionAxis::Horizontal(4));

    assert_eq!(expected, actual);
}

#[test]
fn main_test_calculate_pattern_summary() {
    let actual = mirrors_smudged::calculate_pattern_summary(TWO_PATTERNS).unwrap();
    let expected = 400;
    assert_eq!(expected, actual);
}

#[test]
fn test_solve_part() {
    let input = "rn=1,cm-,qp=3,cm=2,qp-,pc=4,ot=9,ab=5,pc-,pc=6,ot=7";
    assert_eq!(lens::solve_part(input), 1320);
}

#[test]
fn test_hash_sequence() {
    let input = "HASH";
    let expected = 52;
    let actual = lens::hash_sequence(input);
    assert_eq!(actual, expected);
}

#[test]
fn main_test_solve_part() {
    let input = "rn=1,cm-,qp=3,cm=2,qp-,pc=4,ot=9,ab=5,pc-,pc=6,ot=7".to_string();
    assert_eq!(lens_boxes::solve_part(&input).unwrap(), 145);
}

#[test]
fn main_test_hash_sequence() {
    let input = "rn";
    let expected = 0;
    let actual = lens_boxes::hash_sequence(input);
    assert_eq!(actual, expected);
}

#[test]
fn test_parse_command() {
    let input = "rn=1";
    let expected = Command {
        label: "rn".to_string(),
        box_id: 0,
        command_type: CommandType::Insert(1),
    };
    let actual = lens_boxes::parse_command(input).unwrap();
    assert_eq!(actual, expected);
}

#[test]
fn test_parse() {
    let input = "rn=1,cm-,qp=3,cm=2,qp-,pc=4,ot=9,ab=5,pc-,pc=6,ot=7";
    let expected = vec![
        Command { label: "rn".to_string(), box_id: 0, command_type: CommandType::Insert(1) },
        Command { label: "cm".to_string(), box_id: 0, command_type: CommandType::Remove },
        Command { label: "qp".to_string(), box_id: 1, command_type: CommandType::Insert(3) },
        Command { label: "cm".to_string(), box_id: 0, command_type: CommandType::Insert(2) },
        Command { label: "qp".to_string(), box_id: 1, command_type: CommandType::Remove },
        Command { label: "pc".to_string(), box_id: 3, command_type: CommandType::Insert(4) },
        Command { label: "ot".to_string(), box_id: 3, command_type: CommandType::Insert(9) },
        Command { label: "ab".to_string(), box_id: 3, command_type: CommandType::Insert(5) },
        Command { label: "pc".to_string(), box_id: 3, command_type: CommandType::Remove },
        Command { label: "pc".to_string(), box_id: 3, command_type: CommandType::Insert(6) },
        Command { label: "ot".to_string(), box_id: 3, command_type: CommandType::Insert(7) },
    ];
    let actual = lens_boxes::parse(input).unwrap();
    assert_eq!(actual, expected);
}

#[test]
fn test_parse_command_rejects_bare_labels() {
    assert!(lens_boxes::parse_command("rn").is_err());
    assert!(lens_boxes::parse_command("rn=x").is_err());
}

// The box keeps first-insertion order: an update keeps a lens's slot, a
// removal shifts later lenses down, and a re-insertion goes in last.
#[test]
fn test_lens_box_keeps_insertion_order() {
    let mut lens_box = LensBox::new();
    lens_box.insert("rn", 1);
    lens_box.insert("cm", 2);
    lens_box.insert("rn", 9);
    assert_eq!(
        lens_box.entries_list(),
        vec![("rn".to_string(), 9), ("cm".to_string(), 2)]
    );
    lens_box.shift_remove("rn");
    lens_box.insert("rn", 5);
    assert_eq!(
        lens_box.entries_list(),
        vec![("cm".to_string(), 2), ("rn".to_string(), 5)]
    );
    lens_box.shift_remove("zz");
    assert_eq!(lens_box.entries_list().len(), 2);
}

#[test]
fn test_split_char_round_trip() {
    let pieces = text::split_char("a,bb,,c", ',');
    let views: Vec<String> = pieces;
    assert_eq!(
        views,
        vec!["a".to_string(), "bb".to_string(), "".to_string(), "c".to_string()]
    );
    assert_eq!(text::split_char("", ','), vec!["".to_string()]);
}

#[test]
fn test_parse_u32_reads_decimals() {
    assert_eq!(text::parse_u32("123"), Some(123));
    assert_eq!(text::parse_u32("0"), Some(0));
    assert_eq!(text::parse_u32(""), None);
    assert_eq!(text::parse_u32("12a"), None);
    assert_eq!(text::parse_u32("4294967295"), Some(u32::MAX));
    assert_eq!(text::parse_u32("4294967296"), None);
}

#[test]
fn test_parse_i32_reads_signed_decimals() {
    assert_eq!(text::parse_i32("-5"), Some(-5));
    assert_eq!(text::parse_i32("7"), Some(7));
    assert_eq!(text::parse_i32("-2147483648"), Some(i32::MIN));
    assert_eq!(text::parse_i32("2147483648"), None);
    assert_eq!(text::parse_i32("-"), None);
}

#[test]
fn test_line_list_matches_lines() {
    let lines = text::line_list("a\nb\r\nc\n");
    assert_eq!(lines, vec!["a".to_string(), "b".to_string(), "c".to_string()]);
    assert_eq!(text::line_list(""), Vec::<String>::new());
}

#[test]
fn test_tokens_split_on_blanks() {
    assert_eq!(
        text::tokens("  a  bb\tc "),
        vec!["a".to_string(), "bb".to_string(), "c".to_string()]
    );
}

#[test]
fn main_test_tile_state_from_char_valid() {
    assert_eq!(TileState::try_from('.').unwrap(), TileState::none());
    assert_eq!(TileState::try_from('S').unwrap(), TileState::start());
    assert_eq!(TileState::try_from('|').unwrap(), TileState::up().union(TileState::down()));
    assert_eq!(TileState::try_from('-').unwrap(), TileState::left().union(TileState::right()));
    assert_eq!(TileState::try_from('L').unwrap(), TileState::up().union(TileState::right()));
    assert_eq!(TileState::try_from('J').unwrap(), TileState::up().union(TileState::left()));
    assert_eq!(TileState::try_from('7').unwrap(), TileState::down().union(TileState::left()));
    assert_eq!(TileState::try_from('F').unwrap(), TileState::down().union(TileState::right()));
}

#[test]
fn main_test_tile_state_from_char_invalid_returns_error() {
    assert!(gridrun::tiles::TileState::try_from('a').is_err());
}
