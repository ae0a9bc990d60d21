use dabengine::eval::{eval, moves_to_consider, EvaluablePosition};
use dabengine::examples::{
    double_loop, ex3p1, ex7p2, icelandic_game, make_chain, multi_chains, p50,
};
use dabengine::game::{CPosMove, CompoundPosition, Move, Position, Side, SimplePosition};
use dabengine::nimstring::{calc_value_with_moves, mex, NimstringPosition, Value};
use dabengine::render::decimal;
use dabengine::splitter::SplittablePosition;
use std::collections::HashSet;

fn all_moves(pos: &SimplePosition) -> Vec<Move> {
    let mut moves = Vec::new();
    for x in 0..pos.width() {
        for y in 0..pos.height() {
            for s in Side::all() {
                moves.push(Move::new(x, y, s));
            }
        }
    }
    moves
}

#[test]
fn make_then_undo_restores() {
    for mut pos in vec![SimplePosition::new_game(3, 2), p50(), ex7p2()] {
        let before = pos.duplicate();
        let hash = pos.zhash();
        for m in all_moves(&pos) {
            if pos.is_legal_move(m) {
                pos.make_move(m);
                assert!(!pos.eq(&before));
                assert_ne!(hash, pos.zhash());
                pos.undo_move(m);
                assert!(pos.eq(&before));
                assert_eq!(hash, pos.zhash());
                assert_eq!(before.render(), pos.render());
            }
        }
    }
}

#[test]
fn captures_are_foretold() {
    let mut pos = ex3p1();
    while !pos.is_end_of_game() {
        let m = *pos.legal_moves().last().unwrap();
        let foretold = pos.would_capture(m);
        let outcome = pos.make_move(m);
        assert_eq!(foretold, outcome.coins_captured);
        assert!(outcome.coins_captured <= 2);
        assert_eq!(outcome.end_of_game, pos.is_end_of_game());
        assert_eq!(outcome.coins_captured == 0 || outcome.end_of_game, outcome.end_of_turn);
    }
}

#[test]
fn end_of_game_three_ways() {
    let mut pos = SimplePosition::new_game(2, 2);
    loop {
        let over = pos.is_end_of_game();
        let none_legal = pos.legal_moves().is_empty();
        let mut all_captured = true;
        for x in 0..2 {
            for y in 0..2 {
                all_captured = all_captured && pos.is_captured(x, y);
                assert_eq!(pos.is_captured(x, y), pos.valency(x, y) == 0);
            }
        }
        assert_eq!(over, none_legal);
        assert_eq!(over, all_captured);
        if over {
            break;
        }
        let m = pos.legal_moves()[0];
        pos.make_move(m);
    }
    assert!(SimplePosition::new_end_game(4, 3).is_end_of_game());
    assert!(!SimplePosition::new_game(1, 1).is_end_of_game());
}

#[test]
fn legal_moves_in_order() {
    let pos = SimplePosition::new_game(2, 1);
    assert_eq!(
        vec![
            Move::new(0, 0, Side::Top),
            Move::new(1, 0, Side::Top),
            Move::new(0, 0, Side::Left),
            Move::new(0, 0, Side::Bottom),
            Move::new(0, 0, Side::Right),
            Move::new(1, 0, Side::Bottom),
            Move::new(1, 0, Side::Right),
        ],
        pos.legal_moves()
    );
    let compound = CompoundPosition::new_game(vec![make_chain(1), make_chain(1)]);
    assert_eq!(
        vec![
            CPosMove::new(0, 0, 0, Side::Left),
            CPosMove::new(0, 0, 0, Side::Right),
            CPosMove::new(1, 0, 0, Side::Left),
            CPosMove::new(1, 0, 0, Side::Right),
        ],
        compound.legal_moves()
    );
}

#[test]
fn offset_off_the_board() {
    let pos = SimplePosition::new_game(3, 2);
    assert_eq!(None, pos.offset(5, 0, Side::Left));
    assert_eq!(Some((2, 0)), pos.offset(3, 0, Side::Left));
    assert_eq!(None, pos.offset(0, 5, Side::Right));
    assert_eq!(None, pos.offset(usize::MAX, 0, Side::Right));
    assert_eq!(None, pos.offset(0, usize::MAX, Side::Bottom));
    assert_eq!(0, pos.valency(3, 0));
    assert!(pos.is_captured(0, 2));
    assert_eq!(0, pos.would_capture(Move::new(7, 7, Side::Top)));
}

#[test]
fn same_edge_is_an_equivalence() {
    let pos = SimplePosition::new_game(3, 3);
    let moves = all_moves(&pos);
    for &a in &moves {
        assert!(pos.moves_equivalent(a, a));
        for &b in &moves {
            assert_eq!(pos.moves_equivalent(a, b), pos.moves_equivalent(b, a));
            for &c in &moves {
                if pos.moves_equivalent(a, b) && pos.moves_equivalent(b, c) {
                    assert!(pos.moves_equivalent(a, c));
                }
            }
        }
    }
}

#[test]
fn hash_does_not_depend_on_order() {
    let a = Move::new(0, 0, Side::Right);
    let b = Move::new(1, 1, Side::Top);
    let mut first = SimplePosition::new_game(2, 2);
    first.make_move(a);
    first.make_move(b);
    let mut second = SimplePosition::new_game(2, 2);
    second.make_move(b);
    second.make_move(a);
    assert_eq!(first.zhash(), second.zhash());
    assert_ne!(SimplePosition::new_game(2, 2).zhash(), first.zhash());
    assert_ne!(SimplePosition::new_game(2, 3).zhash(), SimplePosition::new_game(3, 2).zhash());
}

#[test]
fn compound_parts_have_keys_of_their_own() {
    let pos = CompoundPosition::new_game(vec![make_chain(3), make_chain(3)]);
    assert_ne!(pos.part(0).zhash(), pos.part(1).zhash());
    assert_eq!(pos.part(0).zhash() ^ pos.part(1).zhash(), pos.zhash());
    assert_eq!(2, pos.part_count());
    let single = CompoundPosition::from_single(make_chain(3));
    assert_eq!(make_chain(3).zhash(), single.zhash());
}

#[test]
fn value_sums() {
    let values = vec![Value::Loony, Value::Nimber(0), Value::Nimber(5), Value::Nimber(9)];
    for &x in &values {
        assert_eq!(Value::Loony, Value::Loony + x);
        assert_eq!(Value::Loony, x + Value::Loony);
        assert_eq!(x, Value::Nimber(0) + x);
        for &y in &values {
            assert_eq!(x + y, y + x);
            for &z in &values {
                assert_eq!((x + y) + z, x + (y + z));
            }
        }
    }
    assert_eq!(Value::Nimber(12), Value::Nimber(5) + Value::Nimber(9));
    assert_eq!(Value::Nimber(0), Value::Nimber(7) + Value::Nimber(7));
}

#[test]
fn mex_leaves_no_gap() {
    let sets: Vec<Vec<usize>> = vec![vec![], vec![0, 1, 2, 3, 4], vec![5, 0, 2, 1], vec![usize::MAX]];
    for set in sets {
        let s: HashSet<usize> = set.iter().cloned().collect();
        let m = mex(s.clone());
        assert!(!s.contains(&m));
        for k in 0..m {
            assert!(s.contains(&k));
        }
    }
}

#[test]
fn split_is_a_partition() {
    for pos in vec![p50(), ex7p2(), multi_chains(3, 4), SimplePosition::new_game(2, 2)] {
        let parts = pos.split();
        let mut open_squares = 0;
        for x in 0..pos.width() {
            for y in 0..pos.height() {
                if !pos.is_captured(x, y) {
                    open_squares += 1;
                }
            }
        }
        let mut squares_in_parts = 0;
        let mut moves_in_parts = 0;
        for part in &parts {
            for x in 0..part.width() {
                for y in 0..part.height() {
                    if !part.is_captured(x, y) {
                        squares_in_parts += 1;
                    }
                }
            }
            assert!(part.legal_moves().len() >= 1);
            moves_in_parts += part.legal_moves().len();
            // A part does not fall apart again
            let again = part.split();
            assert_eq!(1, again.len());
            assert!(again[0].eq(part));
        }
        assert_eq!(open_squares, squares_in_parts);
        assert_eq!(pos.legal_moves().len(), moves_in_parts);
    }
    assert_eq!(0, SimplePosition::new_end_game(2, 2).split().len());
    assert_eq!(4, multi_chains(3, 4).split().len());
}

#[test]
fn value_of_a_finished_game() {
    let pos = SimplePosition::new_end_game(2, 2);
    let (value, per_move) = calc_value_with_moves(&pos);
    assert_eq!(Value::Nimber(0), value);
    assert!(per_move.is_empty());
    assert!(!pos.is_loony());
    let (score, best) = eval(&pos);
    assert_eq!(0, score);
    assert_eq!(None, best);
}

#[test]
fn values_come_in_the_order_of_the_moves() {
    let pos = icelandic_game(2, 2);
    let (_, per_move) = calc_value_with_moves(&pos);
    let moves: Vec<Move> = per_move.iter().map(|entry| entry.0).collect();
    assert_eq!(pos.legal_moves(), moves);
}

#[test]
fn best_move_secures_the_score() {
    for start in vec![ex3p1(), make_chain(4), double_loop(2), icelandic_game(2, 2)] {
        let mut pos = start;
        while !pos.is_end_of_game() {
            let (score, best) = eval(&pos);
            let best = best.unwrap();
            assert!(pos.is_legal_move(best));
            let captured = pos.make_move(best).coins_captured as isize;
            let (after, _) = eval(&pos);
            if captured > 0 {
                assert_eq!(score, captured + after);
            } else {
                assert_eq!(score, -after);
            }
        }
    }
}

#[test]
fn pruned_moves() {
    // Not loony, no capture: every legal move
    let mut pos = make_chain(3);
    assert_eq!(pos.legal_moves(), moves_to_consider(&mut pos));
    // Loony, the capture keeps it loony: the capture alone
    pos.make_move(Move::new(0, 0, Side::Left));
    assert_eq!(vec![Move::new(0, 0, Side::Right)], moves_to_consider(&mut pos));
    // Loony, two coins left of the chain: the capture and the double-deal
    pos.make_move(Move::new(0, 0, Side::Right));
    assert_eq!(
        vec![Move::new(1, 0, Side::Right), Move::new(2, 0, Side::Right)],
        moves_to_consider(&mut pos)
    );
    assert_eq!(
        Move::new(2, 0, Side::Right),
        pos.find_ddeal_move(Move::new(1, 0, Side::Right))
    );
    assert_eq!(
        Move::new(2, 0, Side::Right),
        pos.find_ddeal_move(Move::new(2, 0, Side::Left))
    );
    // Not loony, a capture: the first capture alone
    pos.make_move(Move::new(2, 0, Side::Right));
    assert_eq!(vec![Move::new(1, 0, Side::Right)], moves_to_consider(&mut pos));
    // Finished: nothing
    pos.make_move(Move::new(1, 0, Side::Right));
    assert!(moves_to_consider(&mut pos).is_empty());
}

#[test]
fn compound_double_deal() {
    let mut pos = CompoundPosition::new_game(vec![make_chain(1), make_chain(2)]);
    pos.make_move(CPosMove::new(1, 0, 0, Side::Left));
    assert_eq!(
        CPosMove::new(1, 1, 0, Side::Right),
        pos.find_ddeal_move(CPosMove::new(1, 0, 0, Side::Right))
    );
    assert_eq!(
        vec![CPosMove::new(1, 0, 0, Side::Right), CPosMove::new(1, 1, 0, Side::Right)],
        moves_to_consider(&mut pos)
    );
}

#[test]
fn numbers_as_text() {
    assert_eq!("0", decimal(0));
    assert_eq!("9", decimal(9));
    assert_eq!("10", decimal(10));
    assert_eq!("4096", decimal(4096));
    assert_eq!(usize::MAX.to_string(), decimal(usize::MAX));
    assert_eq!("*18", Value::Nimber(18).render());
    assert_eq!("(10, 200) Left", Move::new(10, 200, Side::Left).render());
}

#[test]
fn board_sizes() {
    assert!(SimplePosition::fits(1, 1));
    assert!(SimplePosition::fits(1000, 1000));
    assert!(!SimplePosition::fits(0, 1));
    assert!(!SimplePosition::fits(1, 0));
    assert!(!SimplePosition::fits(usize::MAX, 1));
    assert!(!SimplePosition::fits(1, usize::MAX));
    assert!(!SimplePosition::fits(usize::MAX / 2, 2));
}
