use dabengine::examples::{one_long_multi_three, p50, p50_top};
use dabengine::game::{CPosMove, CompoundPosition, Move, Position, Side, SimplePosition};
use std::collections::HashSet;

#[test]
fn simple_capture() {
    let mut pos = SimplePosition::new_game(3, 3);
    for i in 0..3 {
        for j in 0..3 {
            assert_eq!(true, pos.is_legal_move(Move { x: i, y: j, side: Side::Left }));
            assert_eq!(true, pos.is_legal_move(Move { x: i, y: j, side: Side::Right }));
            assert_eq!(true, pos.is_legal_move(Move { x: i, y: j, side: Side::Bottom }));
            assert_eq!(true, pos.is_legal_move(Move { x: i, y: j, side: Side::Top }));
            assert_eq!(4, pos.valency(i, j));
        }
    }
    // Out of bounds
    assert_eq!(false, pos.is_legal_move(Move { x: 2, y: 3, side: Side::Left }));
    assert_eq!(false, pos.is_legal_move(Move { x: 3, y: 2, side: Side::Left }));

    let outcome = pos.make_move(Move { x: 1, y: 1, side: Side::Right });
    assert_eq!(0, outcome.coins_captured);
    assert_eq!(true, outcome.end_of_turn);
    assert_eq!(false, outcome.end_of_game);
    assert_eq!(false, pos.is_legal_move(Move { x: 1, y: 1, side: Side::Right }));
    assert_eq!(false, pos.is_legal_move(Move { x: 2, y: 1, side: Side::Left }));
    assert_eq!(false, pos.is_captured(1, 1));
    assert_eq!(3, pos.valency(1, 1));
    assert_eq!(3, pos.valency(2, 1));

    let outcome = pos.make_move(Move { x: 1, y: 1, side: Side::Bottom });
    assert_eq!(0, outcome.coins_captured);
    assert_eq!(true, outcome.end_of_turn);
    assert_eq!(false, outcome.end_of_game);
    assert_eq!(false, pos.is_legal_move(Move { x: 1, y: 1, side: Side::Bottom }));
    assert_eq!(false, pos.is_legal_move(Move { x: 1, y: 2, side: Side::Top }));
    assert_eq!(false, pos.is_captured(1, 1));
    assert_eq!(2, pos.valency(1, 1));
    assert_eq!(3, pos.valency(1, 2));

    assert_eq!(0, pos.would_capture(Move { x: 1, y: 1, side: Side::Left }));
    let outcome = pos.make_move(Move { x: 1, y: 1, side: Side::Left });
    assert_eq!(0, outcome.coins_captured);
    assert_eq!(true, outcome.end_of_turn);
    assert_eq!(false, outcome.end_of_game);
    assert_eq!(false, pos.is_legal_move(Move { x: 1, y: 1, side: Side::Left }));
    assert_eq!(false, pos.is_legal_move(Move { x: 0, y: 1, side: Side::Right }));
    assert_eq!(false, pos.is_captured(1, 1));
    assert_eq!(1, pos.valency(1, 1));
    assert_eq!(3, pos.valency(0, 1));

    assert_eq!(1, pos.would_capture(Move { x: 1, y: 1, side: Side::Top }));
    let outcome = pos.make_move(Move { x: 1, y: 1, side: Side::Top });
    assert_eq!(1, outcome.coins_captured);
    assert_eq!(false, outcome.end_of_turn);
    assert_eq!(false, outcome.end_of_game);
    assert_eq!(false, pos.is_legal_move(Move { x: 1, y: 1, side: Side::Top }));
    assert_eq!(false, pos.is_legal_move(Move { x: 1, y: 0, side: Side::Bottom }));
    assert_eq!(true, pos.is_captured(1, 1));
    assert_eq!(0, pos.valency(1, 1));
    assert_eq!(3, pos.valency(1, 0));

    assert_eq!(false, pos.is_end_of_game());
}

#[test]
fn corners() {
    let mut pos = SimplePosition::new_game(3, 3);
    for &(x, y) in [(0, 0), (0, 2), (2, 0), (2, 2)].iter() {
        let mut sides_captured = 0;
        for s in Side::all() {
            let m = Move { x: x, y: y, side: s };
            assert_eq!(true, pos.is_legal_move(m));
            let outcome = pos.make_move(m);
            assert_eq!(false, pos.is_legal_move(m));
            sides_captured += 1;
            assert_eq!(sides_captured == 4, pos.is_captured(x, y));
            assert_eq!(if sides_captured == 4 { 1 } else { 0 }, outcome.coins_captured);
            assert_eq!(sides_captured < 4, outcome.end_of_turn);
        }
    }

    assert_eq!(false, pos.is_end_of_game());
}

#[test]
fn double_cross() {
    let mut pos = SimplePosition::new_game(2, 1);
    assert_eq!(2, pos.width());
    assert_eq!(1, pos.height());
    let moves = [
        Move { x: 0, y: 0, side: Side::Top },
        Move { x: 0, y: 0, side: Side::Bottom },
        Move { x: 1, y: 0, side: Side::Top },
        Move { x: 1, y: 0, side: Side::Bottom },
        Move { x: 0, y: 0, side: Side::Left },
        Move { x: 1, y: 0, side: Side::Right },
    ];
    for &m in moves.iter() {
        assert_eq!(true, pos.is_legal_move(m));
        assert_eq!(0, pos.would_capture(m));
        let outcome = pos.make_move(m);
        assert_eq!(false, pos.is_legal_move(m));
        assert_eq!(0, outcome.coins_captured);
        assert_eq!(true, outcome.end_of_turn);
        assert_eq!(false, outcome.end_of_game);
        assert_eq!(false, pos.is_end_of_game());
    }
    let dc = Move { x: 0, y: 0, side: Side::Right };
    assert_eq!(true, pos.is_legal_move(dc));
    assert_eq!(2, pos.would_capture(dc));
    let outcome = pos.make_move(dc);
    assert_eq!(2, outcome.coins_captured);
    assert_eq!(true, outcome.end_of_game);
    assert_eq!(true, outcome.end_of_turn);
    assert_eq!(true, pos.is_end_of_game());
    assert_eq!(0, pos.legal_moves().len());
}

#[test]
fn undo() {
    let mut pos = SimplePosition::new_game(3, 3);
    let t = Move { x: 1, y: 1, side: Side::Top };
    pos.make_move(t);
    pos.make_move(Move { x: 1, y: 1, side: Side::Left });
    pos.undo_move(t);
    pos.undo_move(Move { x: 0, y: 1, side: Side::Right });
    for i in 0..2 {
        for j in 0..2 {
            for s in Side::all() {
                assert_eq!(true, pos.is_legal_move(Move { x: i, y: j, side: s }));
            }
        }
    }
}

#[test]
fn move_display() {
    assert_eq!("(0, 0) Top", Move { x: 0, y: 0, side: Side::Top }.render());
    assert_eq!("(5, 3) Bottom", Move { x: 5, y: 3, side: Side::Bottom }.render());
}

#[test]
fn pos_display() {
    let mut pos = SimplePosition::new_game(3, 3);
    pos.make_move(Move { x: 1, y: 1, side: Side::Top });
    pos.make_move(Move { x: 0, y: 0, side: Side::Top });
    pos.make_move(Move { x: 0, y: 2, side: Side::Left });
    let display = pos.render();
    let expected = vec![
        "   0 1 2",
        "  +-+ + +",
        "0        ",
        "  + +-+ +",
        "1        ",
        "  + + + +",
        "2 |      ",
        "  + + + +",
        "",
    ];
    let actual: Vec<&str> = display.split("\n").collect();
    assert_eq!(expected.len(), actual.len());
    for i in 0..expected.len() {
        assert_eq!(expected[i], actual[i], "strings mismatch at position {}", i);
    }
}

#[test]
fn big_pos_display() {
    let pos = SimplePosition::new_game(12, 12);
    let actual = pos.render();
    let lines: Vec<&str> = actual.split("\n").collect();
    assert_eq!("   0 1 2 3 4 5 6 7 8 9 0 1", lines[0]);
    assert!(lines[24].starts_with("1 "), "{}", lines[24].to_string());
}

#[test]
fn legal_moves() {
    let mut pos = SimplePosition::new_game(2, 2);
    let moves = pos.legal_moves();
    assert_eq!(12, moves.len());
    // Edge moves, for which there is only one representation
    for i in 0..2 {
        assert!(moves.contains(&Move { x: i, y: 0, side: Side::Top }));
        assert!(moves.contains(&Move { x: i, y: 1, side: Side::Bottom }));
    }
    for j in 0..2 {
        assert!(moves.contains(&Move { x: 0, y: j, side: Side::Left }));
        assert!(moves.contains(&Move { x: 1, y: j, side: Side::Right }));
    }
    // Interior moves, for which there are two representations
    for i in 0..2 {
        assert!(
            moves.contains(&Move { x: i, y: 0, side: Side::Bottom })
                || moves.contains(&Move { x: i, y: 1, side: Side::Top })
        );
    }
    for j in 0..2 {
        assert!(
            moves.contains(&Move { x: 0, y: j, side: Side::Right })
                || moves.contains(&Move { x: 1, y: j, side: Side::Left })
        );
    }

    pos.make_move(Move { x: 0, y: 0, side: Side::Bottom });
    let moves = pos.legal_moves();
    assert!(
        !moves.contains(&Move { x: 0, y: 0, side: Side::Bottom })
            && !moves.contains(&Move { x: 0, y: 1, side: Side::Top })
    );
}

#[test]
fn offsets() {
    let pos = SimplePosition::new_game(2, 2);

    assert_eq!(None, pos.offset(0, 0, Side::Top));
    assert_eq!(None, pos.offset(0, 0, Side::Left));
    assert_eq!(Some((0, 1)), pos.offset(0, 0, Side::Bottom));
    assert_eq!(Some((1, 0)), pos.offset(0, 0, Side::Right));

    assert_eq!(Some((0, 0)), pos.offset(0, 1, Side::Top));
    assert_eq!(None, pos.offset(0, 1, Side::Left));
    assert_eq!(None, pos.offset(0, 1, Side::Bottom));
    assert_eq!(Some((1, 1)), pos.offset(0, 1, Side::Right));

    assert_eq!(None, pos.offset(1, 0, Side::Top));
    assert_eq!(Some((0, 0)), pos.offset(1, 0, Side::Left));
    assert_eq!(Some((1, 1)), pos.offset(1, 0, Side::Bottom));
    assert_eq!(None, pos.offset(1, 0, Side::Right));

    assert_eq!(Some((1, 0)), pos.offset(1, 1, Side::Top));
    assert_eq!(Some((0, 1)), pos.offset(1, 1, Side::Left));
    assert_eq!(None, pos.offset(1, 1, Side::Bottom));
    assert_eq!(None, pos.offset(1, 1, Side::Right));
}

#[test]
fn move_equivalences() {
    let pos = SimplePosition::new_game(2, 2);

    // A move is always equivalent to itself
    assert!(pos.moves_equivalent(
        Move { x: 0, y: 0, side: Side::Left },
        Move { x: 0, y: 0, side: Side::Left }
    ));

    assert!(pos.moves_equivalent(
        Move { x: 0, y: 0, side: Side::Right },
        Move { x: 1, y: 0, side: Side::Left }
    ));
    assert!(pos.moves_equivalent(
        Move { x: 0, y: 0, side: Side::Bottom },
        Move { x: 0, y: 1, side: Side::Top }
    ));

    assert!(!pos.moves_equivalent(
        Move { x: 0, y: 0, side: Side::Left },
        Move { x: 0, y: 0, side: Side::Right }
    ));

    // Out of bounds
    assert!(!pos.moves_equivalent(
        Move { x: 1, y: 0, side: Side::Right },
        Move { x: 2, y: 0, side: Side::Left }
    ));
}

#[test]
fn equality() {
    let pos1 = p50();
    let mut pos2 = p50();
    assert_eq!(true, pos1.eq(&pos2));
    let m = Move { x: 0, y: 3, side: Side::Bottom };
    pos2.make_move(m);
    assert_eq!(false, pos1.eq(&pos2));
    pos2.undo_move(m);
    assert_eq!(true, pos1.eq(&pos2));

    assert_eq!(false, pos1.eq(&p50_top()));
}

#[test]
fn zhashes() {
    let mut pos = SimplePosition::new_game(3, 3);
    let mut hashes: Vec<usize> = Vec::new();
    let mut moves: Vec<Move> = Vec::new();
    while !pos.is_end_of_game() {
        hashes.push(pos.zhash());
        let m = pos.legal_moves()[0];
        pos.make_move(m);
        moves.push(m);
    }
    hashes.push(pos.zhash());

    // Hashes should all be unique
    let unique_hashes: HashSet<usize> = hashes.iter().cloned().collect();
    assert_eq!(hashes.len(), unique_hashes.len());

    // Undoing moves all the way back should give the same sequence of hashes in reverse
    while !moves.is_empty() {
        let hash = hashes.pop().unwrap();
        let m = moves.pop().unwrap();
        assert_eq!(hash, pos.zhash());
        pos.undo_move(m);
    }
    assert_eq!(1, hashes.len());
    assert_eq!(hashes.pop().unwrap(), pos.zhash());
}

#[test]
fn zhashes_across_position() {
    let (width, height) = (3, 4);
    let mut pos1 = SimplePosition::new_game(width, height);
    let mut pos2 = SimplePosition::new_game(width, height);
    assert_eq!(pos1.zhash(), pos2.zhash());
    let m = Move { x: 1, y: 1, side: Side::Top };
    pos1.make_move(m);
    pos2.make_move(m);
    assert_eq!(pos1.zhash(), pos2.zhash());

    assert_eq!(
        SimplePosition::new_end_game(width, height).zhash(),
        SimplePosition::new_end_game(width, height).zhash()
    );
}

fn all_hashes(pos: &mut SimplePosition) -> HashSet<usize> {
    let mut hashes = HashSet::new();
    loop {
        hashes.insert(pos.zhash());
        let legal_moves = pos.legal_moves();
        if legal_moves.is_empty() {
            hashes.insert(pos.zhash());
            break;
        }
        let m = legal_moves[0];
        pos.make_move(m);
    }
    hashes
}

#[test]
fn zhashes_across_games() {
    let (width, height) = (3, 4);
    let mut pos1 = SimplePosition::new_game(width, height);
    let mut pos2 = SimplePosition::new_game(height, width);
    let hashes1 = all_hashes(&mut pos1);
    let hashes2 = all_hashes(&mut pos2);
    let intersect: HashSet<usize> = hashes1.intersection(&hashes2).cloned().collect();
    assert!(intersect.is_empty());
}

#[test]
fn end_position() {
    let (width, height) = (3, 4);
    let pos = SimplePosition::new_end_game(width, height);
    for i in 0..width {
        for j in 0..height {
            for s in Side::all() {
                assert_eq!(false, pos.is_legal_move(Move { x: i, y: j, side: s }));
            }
        }
    }
}

#[test]
fn all_sides() {
    let sides = Side::all();
    assert_eq!(4, sides.len());
    assert!(sides.contains(&Side::Top));
    assert!(sides.contains(&Side::Bottom));
    assert!(sides.contains(&Side::Left));
    assert!(sides.contains(&Side::Right));
}

#[test]
fn opposites() {
    assert_eq!(Side::Left, Side::Right.opposite());
    assert_eq!(Side::Right, Side::Left.opposite());
    assert_eq!(Side::Top, Side::Bottom.opposite());
    assert_eq!(Side::Bottom, Side::Top.opposite());
}

#[test]
fn all_sides_except() {
    for side in Side::all() {
        let sides = Side::all_except(side);
        assert_eq!(3, sides.len());
        for other_side in Side::all() {
            assert_eq!(side != other_side, sides.contains(&other_side));
        }
    }
}

#[test]
fn compound_move() {
    assert_eq!("Part 1: (2, 3) Right", CPosMove::new(1, 2, 3, Side::Right).render());
}

#[test]
fn compound_position() {
    let mut pos = one_long_multi_three(3, 4);
    let init_hash = pos.zhash();
    assert_eq!(true, pos.is_legal_move(CPosMove::new(0, 3, 0, Side::Right)));
    assert_eq!(false, pos.is_legal_move(CPosMove::new(0, 4, 0, Side::Right)));
    assert_eq!(false, pos.is_legal_move(CPosMove::new(4, 0, 0, Side::Left)));
    let legal_moves = pos.legal_moves();
    // 5 legal moves for the 4-chain, 4 for each of the 3 3-chains
    assert_eq!(17, legal_moves.len());
    for &m in legal_moves.iter() {
        assert_eq!(false, pos.is_end_of_game());
        let wc = pos.would_capture(m);
        let outcome = pos.make_move(m);
        assert_eq!(wc, outcome.coins_captured);
        assert!(init_hash != pos.zhash());
    }
    assert_eq!(true, pos.is_end_of_game());
    let final_hash = pos.zhash();
    assert_ne!(0, final_hash);
    for &m in legal_moves.iter() {
        pos.undo_move(m);
        assert!(final_hash != pos.zhash());
        assert_eq!(false, pos.is_end_of_game());
    }
    assert_eq!(init_hash, pos.zhash());
}

#[test]
fn compound_pos_eq() {
    let pos = one_long_multi_three(3, 4);
    assert_eq!(true, pos.eq(&one_long_multi_three(3, 4)));
    assert_eq!(false, pos.eq(&one_long_multi_three(4, 4)));
    assert_eq!(false, pos.eq(&one_long_multi_three(3, 5)));
}

#[test]
fn compound_pos_display() {
    let pos = one_long_multi_three(2, 4);
    let expected = vec![
        "Component 0:",
        "   0 1 2 3",
        "  +-+-+-+-+",
        "0          ",
        "  +-+-+-+-+",
        "Component 1:",
        "   0 1 2",
        "  +-+-+-+",
        "0        ",
        "  +-+-+-+",
        "Component 2:",
        "   0 1 2",
        "  +-+-+-+",
        "0        ",
        "  +-+-+-+",
        "",
    ];
    let display = pos.render();
    let actual: Vec<&str> = display.split("\n").collect();
    assert_eq!(expected.len(), actual.len());
    for i in 0..expected.len() {
        assert_eq!(expected[i], actual[i], "strings mismatch at position {}", i);
    }
}

#[test]
fn compound_pos_zhash() {
    let simple = SimplePosition::new_game(3, 1);
    let legals = simple.legal_moves();

    // The hash must not be zero just because the two parts have equal and
    // cancelling hashes
    let mut pos = CompoundPosition::new_game(vec![
        SimplePosition::new_game(3, 1),
        SimplePosition::new_game(3, 1),
    ]);
    let mut hashes = HashSet::new();
    hashes.insert(pos.zhash());
    for &m in &legals {
        for p in 0..2 {
            pos.make_move(CPosMove { part: p, m: m });
            hashes.insert(pos.zhash());
        }
    }
    assert_eq!(legals.len() * 2 + 1, hashes.len());
    assert_eq!(false, hashes.contains(&0));
}
