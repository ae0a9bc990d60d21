use dabengine::cli::{execute, help_lines, parse_command, parse_position, parse_side, sort_moves};
use dabengine::cli::{CLIPosition, Command, Reply};
use dabengine::examples::make_chain;
use dabengine::game::{CPosMove, CompoundPosition, Move, Position, Side, SimplePosition};
use dabengine::nimstring::Value;

fn lines_of(text: &str) -> Vec<String> {
    text.lines().map(String::from).collect()
}

#[test]
fn parse_make_move_cmd() {
    let pos = SimplePosition::new_game(6, 6);
    assert_eq!(
        Command::MakeMove(Move::new(3, 5, Side::Bottom)),
        parse_command("3 5 b", &pos).unwrap()
    );
    assert_eq!(
        Command::MakeMove(Move::new(3, 5, Side::Bottom)),
        parse_command("3 5 Bottom", &pos).unwrap()
    );

    let pos = CompoundPosition::from_single(SimplePosition::new_game(6, 6));
    assert_eq!(
        Command::MakeMove(CPosMove::new(0, 3, 5, Side::Top)),
        parse_command("3 5 t", &pos).unwrap()
    );
    assert_eq!(
        Command::MakeMove(CPosMove::new(0, 3, 5, Side::Top)),
        parse_command("3 5 Top", &pos).unwrap()
    );

    let pos = CompoundPosition::new_game(vec![make_chain(5), make_chain(5)]);
    assert_eq!(
        Command::MakeMove(CPosMove::new(1, 0, 1, Side::Left)),
        parse_command("1 0 1 l", &pos).unwrap()
    );
    assert_eq!(
        Command::MakeMove(CPosMove::new(1, 0, 1, Side::Left)),
        parse_command("1 0 1 Left", &pos).unwrap()
    );
}

#[test]
fn parse_make_move_oob() {
    let pos = CompoundPosition::new_game(vec![make_chain(5), make_chain(5)]);
    let parsed = parse_command("2 0 0 l", &pos);
    assert!(parsed.is_err());
    assert!(parsed.err().unwrap().contains("Part 2 out of bounds"));
}

#[test]
fn parse_undo_move_cmd() {
    let pos = SimplePosition::new_game(9, 9);
    assert_eq!(
        Command::UndoMove(Move::new(8, 6, Side::Left)),
        parse_command("u 8 6 l", &pos).unwrap()
    );
    assert_eq!(
        Command::UndoMove(Move::new(8, 6, Side::Left)),
        parse_command("u 8 6 Left", &pos).unwrap()
    );

    let pos = CompoundPosition::from_single(SimplePosition::new_game(9, 9));
    assert_eq!(
        Command::UndoMove(CPosMove::new(0, 8, 6, Side::Left)),
        parse_command("u 8 6 l", &pos).unwrap()
    );
    assert_eq!(
        Command::UndoMove(CPosMove::new(0, 8, 6, Side::Left)),
        parse_command("u 8 6 Left", &pos).unwrap()
    );

    let pos = CompoundPosition::new_game(vec![make_chain(5), make_chain(5)]);
    assert_eq!(
        Command::UndoMove(CPosMove::new(1, 3, 2, Side::Top)),
        parse_command("u 1 3 2 t", &pos).unwrap()
    );
    assert_eq!(
        Command::UndoMove(CPosMove::new(1, 3, 2, Side::Top)),
        parse_command("u 1 3 2 Top", &pos).unwrap()
    );
}

#[test]
fn parse_nimstring_value_cmd() {
    let pos = SimplePosition::new_game(1, 1);
    assert_eq!(Command::CalcNimstringValue, parse_command("nv", &pos).unwrap());
}

#[test]
fn parse_evaluate_cmd() {
    let pos = SimplePosition::new_game(1, 1);
    assert_eq!(Command::Evaluate, parse_command("eval", &pos).unwrap());
}

#[test]
fn parse_help_cmd() {
    let pos = SimplePosition::new_game(1, 1);
    assert_eq!(Command::PrintHelp, parse_command("help", &pos).unwrap());
}

#[test]
fn parse_exit_cmd() {
    let pos = SimplePosition::new_game(1, 1);
    assert_eq!(Command::Quit, parse_command("quit", &pos).unwrap());
    assert_eq!(Command::Quit, parse_command("exit", &pos).unwrap());
}

#[test]
fn parse_simple_position() {
    let input_str = vec!["3 1", "0 0 t", "0 0 b", "1 0 t", "1 0 b", "2 0 t", "2 0 b"].join("\n");
    let expected = CompoundPosition::from_single(make_chain(3));
    let actual = parse_position(&lines_of(&input_str)).unwrap();
    assert_eq!(true, expected.eq(&actual), "{}", actual.render());
}

#[test]
fn parse_compound_position() {
    let input_str = vec![
        "3 1 4 1",
        "# A comment followed by a blank line",
        "",
        "0 0 0 t",
        "0 0 0 b",
        "0 1 0 t",
        "0 1 0 b",
        "0 2 0 t",
        "0 2 0 b",
        "1 0 0 t",
        "1 0 0 b",
        "1 1 0 t",
        "1 1 0 b",
        "1 2 0 t",
        "1 2 0 b",
        "1 3 0 t",
        "1 3 0 b",
    ]
    .join("\n");
    let expected = CompoundPosition::new_game(vec![make_chain(3), make_chain(4)]);
    let actual = parse_position(&lines_of(&input_str)).unwrap();
    assert_eq!(true, expected.eq(&actual), "{}", actual.render());
}

#[test]
fn parse_position_errors() {
    let parsed = parse_position(&lines_of(""));
    assert!(parsed.is_err());
    assert_eq!("No lines found", parsed.err().unwrap());

    let parsed = parse_position(&lines_of("1"));
    assert!(parsed.is_err());
    assert!(parsed
        .err()
        .unwrap()
        .starts_with("Expected an even number of dimensions and at least 2"));

    let parsed = parse_position(&lines_of("1 2 3"));
    assert!(parsed.is_err());
    assert!(parsed
        .err()
        .unwrap()
        .starts_with("Expected an even number of dimensions and at least 2"));

    let parsed = parse_position(&lines_of("zxcv"));
    assert!(parsed.is_err());
    assert!(parsed.err().unwrap().contains("Could not parse int"));
}

#[test]
fn side_names() {
    assert_eq!(Some(Side::Left), parse_side("l"));
    assert_eq!(Some(Side::Left), parse_side("left"));
    assert_eq!(Some(Side::Right), parse_side("r"));
    assert_eq!(Some(Side::Right), parse_side("right"));
    assert_eq!(Some(Side::Top), parse_side("t"));
    assert_eq!(Some(Side::Top), parse_side("top"));
    assert_eq!(Some(Side::Bottom), parse_side("b"));
    assert_eq!(Some(Side::Bottom), parse_side("bottom"));
    assert_eq!(None, parse_side("Left"));
    assert_eq!(None, parse_side(""));
    assert_eq!(None, parse_side("lefty"));
}

#[test]
fn commands_in_any_case() {
    let pos = SimplePosition::new_game(2, 2);
    assert_eq!(Command::CalcNimstringValue, parse_command("NV", &pos).unwrap());
    assert_eq!(Command::Evaluate, parse_command("Eval", &pos).unwrap());
    assert_eq!(Command::PrintHelp, parse_command("HELP", &pos).unwrap());
    assert_eq!(Command::Quit, parse_command("QuIt", &pos).unwrap());
    assert_eq!(
        Command::UndoMove(Move::new(1, 0, Side::Right)),
        parse_command("U 1 0 RIGHT", &pos).unwrap()
    );
}

#[test]
fn move_errors() {
    let pos = SimplePosition::new_game(2, 2);
    assert_eq!(
        "Could not extract move from [hello]",
        pos.parse_move("hello").err().unwrap()
    );
    assert_eq!("Unrecognised side: [x]", pos.parse_move("0 0 x").err().unwrap());
    assert_eq!(
        "Could not extract move from [0  0 t]",
        pos.parse_move("0  0 t").err().unwrap()
    );
    assert_eq!(
        "Could not extract move from [0 0 t ]",
        pos.parse_move("0 0 t ").err().unwrap()
    );
    assert_eq!(
        "Could not extract move from [99999999999999999999999999 0 t]",
        pos.parse_move("99999999999999999999999999 0 t").err().unwrap()
    );
    assert_eq!(Move::new(12, 345, Side::Top), pos.parse_move("12 345 t").unwrap());
    assert_eq!(
        "Cannot extract move from [0 0 x]: Unrecognised side: [x]",
        parse_command("0 0 X", &pos).err().unwrap()
    );
    assert_eq!(
        "Cannot extract move from [u 0]: Could not extract move from [0]",
        parse_command("u 0", &pos).err().unwrap()
    );

    let pos = CompoundPosition::new_game(vec![make_chain(2), make_chain(2)]);
    assert_eq!(
        "Part 7 out of bounds (count=2)",
        pos.parse_move("7 0 0 t").err().unwrap()
    );
    assert_eq!(
        "Could not parse [0 t] as SimplePosition move",
        pos.parse_move("1 0 t").err().unwrap()
    );
    assert_eq!("Could not extract move from [t]", pos.parse_move("t").err().unwrap());
    assert_eq!(CPosMove::new(1, 0, 0, Side::Top), pos.parse_move("1 0 0 t").unwrap());
}

#[test]
fn saved_position_errors() {
    assert_eq!(
        "Could not parse int from []: cannot parse integer from empty string",
        parse_position(&lines_of("3  1")).err().unwrap()
    );
    assert_eq!(
        "Could not parse int from [x]: invalid digit found in string",
        parse_position(&lines_of("3 x")).err().unwrap()
    );
    assert_eq!(
        "Could not parse int from [+]: invalid digit found in string",
        parse_position(&lines_of("+ 1")).err().unwrap()
    );
    assert_eq!(
        "Could not parse int from [99999999999999999999999]: number too large to fit in target type",
        parse_position(&lines_of("99999999999999999999999 1")).err().unwrap()
    );
    assert_eq!(
        "Expected an even number of dimensions and at least 2, found: [1, 2, 3]",
        parse_position(&lines_of("1 2 3")).err().unwrap()
    );
    assert_eq!(
        "Cannot make a board of width 0 and height 2",
        parse_position(&lines_of("3 1 0 2")).err().unwrap()
    );
    assert_eq!(
        "Not a legal move: Part 0: (0, 0) Top",
        parse_position(&lines_of("2 1\n0 0 t\n0 0 t")).err().unwrap()
    );
    assert_eq!(
        "Not a move to take back: Part 0: (1, 0) Right",
        parse_position(&lines_of("2 1\nu 1 0 r")).err().unwrap()
    );
    assert_eq!(
        "Cannot extract move from [ 0 0 t]: Could not extract move from [ 0 0 t]",
        parse_position(&lines_of("2 1\n 0 0 t")).err().unwrap()
    );
}

#[test]
fn saved_position_lines() {
    // A plus sign before a number, lines of blanks, comments, commands
    // that change nothing, and a move taken back
    let pos = parse_position(&lines_of("+2 1\n   \n# note\nnv\neval\nhelp\n0 0 t\n1 0 b\nu 0 0 t"))
        .unwrap();
    let mut expected = CompoundPosition::from_single(SimplePosition::new_game(2, 1));
    expected.make_move(CPosMove::new(0, 1, 0, Side::Bottom));
    assert!(expected.eq(&pos));
    assert_eq!(6, pos.legal_moves().len());
}

#[test]
fn execute_commands() {
    let mut pos = make_chain(2);
    let open = Move::new(0, 0, Side::Left);
    match execute(&Command::MakeMove(open), &mut pos) {
        Reply::Moved(outcome) => assert_eq!(0, outcome.coins_captured),
        other => panic!("{:?}", other),
    }
    match execute(&Command::MakeMove(open), &mut pos) {
        Reply::NotLegal(m) => assert_eq!(open, m),
        other => panic!("{:?}", other),
    }
    match execute(&Command::Evaluate, &mut pos) {
        Reply::Score(score, best) => {
            assert_eq!(2, score);
            assert!(pos.moves_equivalent(best.unwrap(), Move::new(0, 0, Side::Right)));
        }
        other => panic!("{:?}", other),
    }
    match execute(&Command::CalcNimstringValue, &mut pos) {
        Reply::Values(value, shown) => {
            assert_eq!(Value::Loony, value);
            let moves: Vec<Move> = shown.iter().map(|entry| entry.0).collect();
            assert_eq!(
                vec![Move::new(0, 0, Side::Right), Move::new(1, 0, Side::Right)],
                moves
            );
        }
        other => panic!("{:?}", other),
    }
    assert!(matches!(execute(&Command::UndoMove(open), &mut pos), Reply::Undone));
    assert!(pos.eq(&make_chain(2)));
    match execute(&Command::UndoMove(open), &mut pos) {
        Reply::NotUndoable(m) => assert_eq!(open, m),
        other => panic!("{:?}", other),
    }
    match execute(&Command::UndoMove(Move::new(5, 0, Side::Left)), &mut pos) {
        Reply::NotUndoable(m) => assert_eq!(Move::new(5, 0, Side::Left), m),
        other => panic!("{:?}", other),
    }
    assert!(matches!(execute(&Command::<Move>::PrintHelp, &mut pos), Reply::Help));
    assert!(matches!(execute(&Command::<Move>::Quit, &mut pos), Reply::Bye));
}

#[test]
fn listing_order() {
    let items = vec![
        (Move::new(1, 0, Side::Right), Value::Nimber(1)),
        (Move::new(0, 1, Side::Top), Value::Nimber(2)),
        (Move::new(0, 0, Side::Left), Value::Nimber(3)),
        (Move::new(0, 0, Side::Top), Value::Loony),
        (Move::new(1, 0, Side::Bottom), Value::Nimber(5)),
    ];
    let sorted = sort_moves::<Move, SimplePosition>(&items);
    let moves: Vec<Move> = sorted.iter().map(|entry| entry.0).collect();
    assert_eq!(
        vec![
            Move::new(0, 0, Side::Top),
            Move::new(0, 0, Side::Left),
            Move::new(1, 0, Side::Bottom),
            Move::new(1, 0, Side::Right),
            Move::new(0, 1, Side::Top),
        ],
        moves
    );
    assert_eq!(Value::Loony, sorted[0].1);

    // In a compound the column comes before the row
    let items = vec![
        (CPosMove::new(1, 0, 0, Side::Top), Value::Nimber(0)),
        (CPosMove::new(0, 1, 0, Side::Top), Value::Nimber(0)),
        (CPosMove::new(0, 0, 1, Side::Top), Value::Nimber(0)),
    ];
    let sorted = sort_moves::<CPosMove, CompoundPosition>(&items);
    let moves: Vec<CPosMove> = sorted.iter().map(|entry| entry.0).collect();
    assert_eq!(
        vec![
            CPosMove::new(0, 0, 1, Side::Top),
            CPosMove::new(0, 1, 0, Side::Top),
            CPosMove::new(1, 0, 0, Side::Top),
        ],
        moves
    );
}

#[test]
fn help() {
    let pos = SimplePosition::new_game(1, 1);
    let lines = help_lines(&pos);
    assert_eq!(7, lines.len());
    assert_eq!("Available commands:", lines[0]);
    assert_eq!("x y t/l/b/r - make move (x,y) top/left/bottom/right", lines[1]);
    assert_eq!("u x y t/l/b/r - undo move (x,y) top/left/bottom/right", lines[2]);
    assert_eq!("quit/exit - exit program", lines[6]);
    let pos = CompoundPosition::from_single(pos);
    assert_eq!(
        "[p] x y t/l/b/r - make move (x,y) top/left/bottom/right in part p",
        pos.move_cmd_help("make")
    );
}
