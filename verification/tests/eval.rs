use dabengine::eval::{eval, moves_to_consider};
use dabengine::examples::{
    double_chain, double_loop, ex3p1, ex3p12, make_chain, multi_chains, one_long_multi_three,
};
use dabengine::game::{CPosMove, CompoundPosition, Move, Position, Side, SimplePosition};
use rand::rngs::StdRng;
use rand::seq::SliceRandom;
use rand::{Rng, SeedableRng};
use std::cmp;
use std::time::Instant;

#[test]
fn eval_chain() {
    for i in 1..10 {
        let mut chain = make_chain(i);
        let (val, _) = eval(&chain);
        let expected_val = -(i as isize);
        assert_eq!(expected_val, val, "Closed {}-chain", i);
        chain.make_move(Move { x: 0, y: 0, side: Side::Left });
        let (val, best_move) = eval(&chain);
        assert_eq!(-expected_val, val, "Opened {}-chain", i);
        assert!(chain.moves_equivalent(best_move.unwrap(), Move { x: 0, y: 0, side: Side::Right }));
    }
}

#[test]
fn eval_double_chain() {
    let (val, _) = eval(&double_chain(1));
    assert_eq!(0, val);
    for i in 2..10 {
        let mut pos = double_chain(i);
        let (val, _) = eval(&pos);
        let expected_val = 4 - 2 * (i as isize);
        assert_eq!(expected_val, val, "Evaluation of double chain length {}", i);
        pos.make_move(Move { x: 0, y: 0, side: Side::Left });
        let (val, best_move) = eval(&pos);
        assert_eq!(-expected_val, val, "Evaluation of opened double chain length {}", i);
        assert!(pos.moves_equivalent(best_move.unwrap(), Move { x: 0, y: 0, side: Side::Right }));
    }
}

#[test]
fn eval_multi_chains() {
    let mut pos = multi_chains(3, 4);

    let (val, _) = eval(&pos);
    assert_eq!(-2, val);
    pos.make_move(Move { x: 0, y: 0, side: Side::Left });

    let (val, best_move) = eval(&pos);
    assert_eq!(2, val);
    assert!(pos.moves_equivalent(best_move.unwrap(), Move { x: 0, y: 0, side: Side::Right }));
    pos.make_move(Move { x: 0, y: 0, side: Side::Right });

    let (val, best_move) = eval(&pos);
    assert_eq!(1, val);
    assert!(pos.moves_equivalent(best_move.unwrap(), Move { x: 1, y: 0, side: Side::Right }));
    pos.make_move(Move { x: 1, y: 0, side: Side::Right });

    let (val, best_move) = eval(&pos);
    assert_eq!(0, val);
    assert!(pos.moves_equivalent(best_move.unwrap(), Move { x: 2, y: 0, side: Side::Right }));
    pos.make_move(Move { x: 2, y: 0, side: Side::Right });

    let (val, _) = eval(&pos);
    assert_eq!(-1, val);
}

#[test]
fn eval_double_loop() {
    for i in 2..8 {
        let mut pos = double_loop(i);
        let (val, _) = eval(&pos);
        let expected_val = 8 - 4 * (i as isize);
        assert_eq!(expected_val, val, "Evaluation of double loop width {}", i);
        pos.make_move(Move { x: 0, y: 0, side: Side::Right });
        let (val, _) = eval(&pos);
        assert_eq!(-expected_val, val, "Evaluation of opened double loop width {}", i);
    }
}

#[test]
fn eval_ex3p1() {
    let mut pos = ex3p1();
    let (val, best_move) = eval(&pos);
    let best_move = best_move.unwrap();
    assert_eq!(3, val);
    assert!(pos.moves_equivalent(best_move, Move { x: 2, y: 1, side: Side::Bottom }));

    pos.make_move(Move { x: 2, y: 1, side: Side::Bottom });
    let (val, best_move) = eval(&pos);
    let best_move = best_move.unwrap();
    assert_eq!(-3, val);
    assert!(pos.moves_equivalent(best_move, Move { x: 0, y: 0, side: Side::Bottom }));

    pos.make_move(Move { x: 0, y: 0, side: Side::Bottom });
    let (val, _) = eval(&pos);
    assert_eq!(3, val);

    pos.undo_move(Move { x: 0, y: 0, side: Side::Bottom });
    pos.make_move(Move { x: 0, y: 2, side: Side::Left });
    let (val, _) = eval(&pos);
    assert_eq!(5, val);
}

#[test]
fn eval_ex3p12() {
    let mut pos = ex3p12();
    let (val, best_move) = eval(&pos);
    let best_move = best_move.unwrap();
    let expected_val = 9;
    assert_eq!(expected_val, val);
    assert!(pos.moves_equivalent(best_move, Move { x: 4, y: 0, side: Side::Bottom }));

    pos.make_move(Move { x: 4, y: 0, side: Side::Bottom });
    let (val, _) = eval(&pos);
    assert_eq!(-expected_val, val);
}

#[derive(Debug)]
struct OLMTCase {
    i: usize,
    k: usize,
    exp_val: isize,
    taking_optimal: bool,
    ddeal_optimal: bool,
}

impl OLMTCase {
    fn new(i: usize, k: usize, exp_val: isize, taking_optimal: bool, ddeal_optimal: bool) -> OLMTCase {
        OLMTCase {
            i: i,
            k: k,
            exp_val: exp_val,
            taking_optimal: taking_optimal,
            ddeal_optimal: ddeal_optimal,
        }
    }
}

#[test]
fn eval_one_long_multi_three() {
    // The table of P(i, 4)
    let cases = vec![
        OLMTCase::new(0, 4, -4, true, false),
        OLMTCase::new(1, 4, -3, false, true),
        OLMTCase::new(2, 4, -2, false, true),
        OLMTCase::new(3, 4, -1, true, true),
        OLMTCase::new(4, 4, -2, true, false),
        OLMTCase::new(5, 4, -1, true, true),
        OLMTCase::new(6, 4, -2, true, false),
        OLMTCase::new(7, 4, -1, true, true),
        OLMTCase::new(8, 4, -2, true, false),
    ];

    for case in cases.iter() {
        let mut pos = one_long_multi_three(case.i, case.k);
        let (val, _) = eval(&pos);
        assert_eq!(case.exp_val, val, "{:?}", case);

        let part = if case.i == 0 { 0 } else { 1 };
        let open = CPosMove::new(part, 0, 0, Side::Left);
        pos.make_move(open);
        // Once the first chain is opened, capturing the first coin
        // is the only move to consider
        assert_eq!(1, moves_to_consider(&mut pos).len());
        let (val, best_move) = eval(&pos);
        assert_eq!(-case.exp_val, val, "{:?}", case);
        assert_eq!(1, pos.make_move(best_move.unwrap()).coins_captured);

        let (val, best_move) = eval(&pos);
        if case.i > 0 {
            assert_eq!(2, moves_to_consider(&mut pos).len());
        }
        assert_eq!(-case.exp_val - 1, val, "{:?}", case);

        let mut ok_moves: Vec<CPosMove> = Vec::with_capacity(2);
        if case.taking_optimal {
            ok_moves.push(CPosMove::new(part, 1, 0, Side::Right));
        }
        if case.ddeal_optimal {
            ok_moves.push(CPosMove::new(part, 2, 0, Side::Right));
        }
        assert!(
            ok_moves.iter().any(|&m| pos.moves_equivalent(m, best_move.unwrap())),
            "{:?} {:?} {}",
            case,
            ok_moves,
            best_move.unwrap().render()
        );
    }
}

#[test]
fn multiple_loony_parts() {
    let mut pos = CompoundPosition::new_game(vec![make_chain(2), make_chain(2)]);
    pos.make_move(CPosMove::new(0, 0, 0, Side::Left));
    pos.make_move(CPosMove::new(1, 0, 0, Side::Left));
    assert_eq!(1, moves_to_consider(&mut pos).len());
}

// For use in generative tests
fn make_random_pos(r: &mut StdRng) -> SimplePosition {
    let width: usize = r.gen_range(1..4);
    let height: usize = r.gen_range(1..4);
    let mut pos = SimplePosition::new_game(width, height);
    let mut moves = pos.legal_moves();
    moves.as_mut_slice().shuffle(r);
    let max_remaining_moves = 9; // Limits running cost of naive minimax
    let min_move_count: usize = if moves.len() > max_remaining_moves {
        moves.len() - max_remaining_moves
    } else {
        0
    };
    let move_count = r.gen_range(min_move_count..moves.len() + 1);
    for i in 0..move_count {
        let m = moves[i];
        pos.make_move(m);
    }
    pos
}

// Plain evaluation to compare the pruned one to
fn naive_minimax(pos: &mut SimplePosition) -> isize {
    let moves = pos.legal_moves();
    if moves.is_empty() {
        return 0;
    }
    let mut result = isize::MIN;
    for &m in &moves {
        let outcome = pos.make_move(m);
        let captures = outcome.coins_captured as isize;
        let m_val = if captures > 0 { captures + naive_minimax(pos) } else { -naive_minimax(pos) };
        pos.undo_move(m);
        result = cmp::max(result, m_val);
    }
    result
}

#[test]
fn matches_naive_minimax() {
    let test_time_s = 5 as f64;
    let mut seed: [u8; 32] = [0; 32];
    seed[0] = 123;
    let mut r: StdRng = SeedableRng::from_seed(seed);
    let mut i = 0;
    let start_time = Instant::now();
    loop {
        let mut pos = make_random_pos(&mut r);
        let expected_val = naive_minimax(&mut pos);
        let (val, best_move) = eval(&pos);
        assert_eq!(expected_val, val, "SimplePosition {} value matches naive minimax", i);

        if !pos.is_end_of_game() {
            let best_move = best_move.unwrap();
            let outcome = pos.make_move(best_move);
            let captures = outcome.coins_captured as isize;
            let (next_val, _) = eval(&pos);
            let expected_next_val =
                if captures > 0 { expected_val - captures } else { -expected_val };
            assert_eq!(expected_next_val, next_val);
        }

        let elapsed = start_time.elapsed();
        if elapsed.as_secs_f64() >= test_time_s {
            break;
        }
        i += 1;
    }
}
