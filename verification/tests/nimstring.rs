use dabengine::examples::{
    ex6p2, ex7p2, icelandic_game, make_chain, p50, p50_bottomleft, p50_bottomright, p50_top,
};
use dabengine::game::{CPosMove, CompoundPosition, Move, Position, Side};
use dabengine::nimstring::{
    calc_value, calc_value_with_moves, mex, would_be_loony, NimstringPosition, Value,
};
use std::collections::{HashMap, HashSet};

fn value_after(per_move: &Vec<(Move, Value)>, m: Move) -> Option<Value> {
    per_move.iter().find(|entry| entry.0 == m).map(|entry| entry.1)
}

#[test]
fn value_display() {
    assert_eq!("*0", Value::Nimber(0).render());
    assert_eq!("*1", Value::Nimber(1).render());
    assert_eq!("*2", Value::Nimber(2).render());
    assert_eq!("L", Value::Loony.render());
}

#[test]
fn min_excl() {
    assert_eq!(0, mex(HashSet::new()));
    assert_eq!(0, mex([1, 2, 3].iter().cloned().collect()));
    assert_eq!(1, mex([0].iter().cloned().collect()));
    assert_eq!(1, mex([0, 2, 3].iter().cloned().collect()));
    assert_eq!(2, mex([0, 1, 3].iter().cloned().collect()));
    assert_eq!(3, mex([0, 1, 2].iter().cloned().collect()));
}

#[test]
fn nimber_addition() {
    assert_eq!(Value::Nimber(3), Value::Nimber(1) + Value::Nimber(2));
    assert_eq!(Value::Nimber(2), Value::Nimber(1) + Value::Nimber(3));
    assert_eq!(Value::Nimber(1), Value::Nimber(2) + Value::Nimber(3));

    assert_eq!(Value::Nimber(6), Value::Nimber(2) + Value::Nimber(4));
    assert_eq!(Value::Nimber(4), Value::Nimber(6) + Value::Nimber(2));
    assert_eq!(Value::Nimber(2), Value::Nimber(4) + Value::Nimber(6));

    assert_eq!(Value::Loony, Value::Nimber(2) + Value::Loony);
    assert_eq!(Value::Loony, Value::Loony + Value::Nimber(2));
}

#[test]
fn basic_values() {
    let mut pos = make_chain(3);
    assert!(!pos.is_loony());
    let mut cache = HashMap::new();
    assert_eq!(Value::Nimber(0), calc_value(&mut pos, &mut cache));
    pos.make_move(Move { x: 0, y: 0, side: Side::Left });
    assert!(pos.is_loony());
    assert_eq!(Value::Loony, calc_value(&mut pos, &mut cache));
    pos.make_move(Move { x: 1, y: 0, side: Side::Left });
    assert!(pos.is_loony());
    assert_eq!(Value::Loony, calc_value(&mut pos, &mut cache));
    pos.make_move(Move { x: 2, y: 0, side: Side::Left });
    assert!(!pos.is_loony());
    assert_eq!(Value::Nimber(0), calc_value(&mut pos, &mut cache));
    pos.make_move(Move { x: 2, y: 0, side: Side::Right });
    assert!(!pos.is_loony());
    assert_eq!(Value::Nimber(0), calc_value(&mut pos, &mut cache));
}

#[test]
fn open_3loop_not_loony() {
    let mut pos = make_chain(3);
    pos.make_move(Move { x: 0, y: 0, side: Side::Left });
    pos.make_move(Move { x: 2, y: 0, side: Side::Right });
    assert_eq!(false, pos.is_loony());
    let (val, _) = calc_value_with_moves(&pos);
    assert_eq!(Value::Nimber(0), val);
}

#[test]
fn nonzero_value() {
    let mut pos = make_chain(7);
    pos.undo_move(Move { x: 3, y: 0, side: Side::Top });
    let (val, per_move) = calc_value_with_moves(&pos);
    assert_eq!(Value::Nimber(1), val);
    assert_eq!(
        Value::Nimber(0),
        value_after(&per_move, Move { x: 3, y: 0, side: Side::Top }).unwrap()
    );
}

#[test]
fn right_capture_detection() {
    let mut pos = make_chain(5);
    pos.undo_move(Move { x: 3, y: 0, side: Side::Top });
    let (val, per_move) = calc_value_with_moves(&pos);
    assert_eq!(Value::Nimber(1), val);
    assert_eq!(
        Value::Nimber(0),
        value_after(&per_move, Move { x: 4, y: 0, side: Side::Right }).unwrap()
    );
}

#[test]
fn p50_top_value() {
    let pos = p50_top();
    let (val, per_move) = calc_value_with_moves(&pos);
    assert_eq!(Value::Nimber(1), val);
    assert_eq!(
        Value::Nimber(0),
        value_after(&per_move, Move { x: 3, y: 0, side: Side::Top }).unwrap()
    );
}

#[test]
fn p50_bottomleft_value() {
    let pos = p50_bottomleft();
    let (val, per_move) = calc_value_with_moves(&pos);
    assert_eq!(Value::Nimber(4), val);
    assert_eq!(
        Value::Nimber(3),
        value_after(&per_move, Move { x: 0, y: 1, side: Side::Left }).unwrap()
    );
    assert_eq!(
        Value::Nimber(3),
        value_after(&per_move, Move { x: 0, y: 1, side: Side::Bottom }).unwrap()
    );
    assert_eq!(
        Value::Nimber(3),
        value_after(&per_move, Move { x: 0, y: 1, side: Side::Right })
            .or(value_after(&per_move, Move { x: 0, y: 2, side: Side::Left }))
            .unwrap()
    );
}

#[test]
fn p50_bottomright_value() {
    let pos = p50_bottomright();
    let (val, per_move) = calc_value_with_moves(&pos);
    assert_eq!(Value::Nimber(2), val);
    assert_eq!(
        Value::Nimber(3),
        value_after(&per_move, Move { x: 0, y: 1, side: Side::Right }).unwrap()
    );
}

#[test]
fn p50_value() {
    let pos = p50();
    let (val, per_move) = calc_value_with_moves(&pos);
    assert_eq!(Value::Nimber(7), val);
    let zero_moves: Vec<Move> = per_move
        .iter()
        .filter(|entry| entry.1 == Value::Nimber(0))
        .map(|entry| entry.0)
        .collect();
    assert_eq!(3, zero_moves.len());
    assert!(zero_moves.contains(&Move { x: 0, y: 3, side: Side::Bottom }));
    assert!(zero_moves.contains(&Move { x: 0, y: 3, side: Side::Left }));
    assert!(zero_moves.contains(&Move { x: 0, y: 3, side: Side::Right }));
}

#[test]
fn icelandic_value_2by2() {
    let pos = icelandic_game(2, 2);
    let (val, _per_move) = calc_value_with_moves(&pos);
    assert_eq!(Value::Nimber(2), val);
}

#[test]
fn ex6p1_value() {
    let mut pos = ex6p2();
    pos.make_move(Move { x: 1, y: 1, side: Side::Left }); // Same position but rotated
    let (val, _per_move) = calc_value_with_moves(&pos);
    assert_eq!(Value::Nimber(3), val);
}

#[test]
fn ex6p2_value() {
    let pos = ex6p2();
    let (val, _per_move) = calc_value_with_moves(&pos);
    assert_eq!(Value::Nimber(4), val);
}

#[test]
fn ex7p2_value() {
    let pos = ex7p2();
    let (val, per_move) = calc_value_with_moves(&pos);
    assert_eq!(Value::Nimber(6), val);
    assert_eq!(
        Value::Nimber(0),
        value_after(&per_move, Move { x: 4, y: 3, side: Side::Right }).unwrap()
    );
}

#[test]
fn conditional_looniness() {
    let mut pos = make_chain(5);
    assert_eq!(true, would_be_loony(&mut pos, Move { x: 0, y: 0, side: Side::Left }));
    pos.make_move(Move { x: 0, y: 0, side: Side::Left });
    assert_eq!(true, pos.is_loony());
    assert_eq!(true, would_be_loony(&mut pos, Move { x: 1, y: 0, side: Side::Left }));
    pos.make_move(Move { x: 1, y: 0, side: Side::Left });
    assert_eq!(true, pos.is_loony());
    assert_eq!(true, would_be_loony(&mut pos, Move { x: 2, y: 0, side: Side::Left }));
    pos.make_move(Move { x: 2, y: 0, side: Side::Left });
    assert_eq!(true, pos.is_loony());
    assert_eq!(true, would_be_loony(&mut pos, Move { x: 3, y: 0, side: Side::Left }));
    pos.make_move(Move { x: 3, y: 0, side: Side::Left });
    assert_eq!(true, pos.is_loony());
    assert_eq!(false, would_be_loony(&mut pos, Move { x: 4, y: 0, side: Side::Left }));
    assert_eq!(false, would_be_loony(&mut pos, Move { x: 4, y: 0, side: Side::Right }));
    pos.make_move(Move { x: 4, y: 0, side: Side::Left });
    assert_eq!(false, pos.is_loony());
    assert_eq!(false, would_be_loony(&mut pos, Move { x: 4, y: 0, side: Side::Right }));
    pos.make_move(Move { x: 4, y: 0, side: Side::Right });
    assert_eq!(true, pos.is_end_of_game());
    assert_eq!(false, pos.is_loony());
}

#[test]
fn compound_values() {
    let mut pos = CompoundPosition::new_game(vec![make_chain(5), make_chain(5)]);
    assert_eq!(false, pos.is_loony());
    let (val, _per_move) = calc_value_with_moves(&pos);
    assert_eq!(Value::Nimber(0), val);
    pos.make_move(CPosMove::new(1, 0, 0, Side::Left));
    assert_eq!(true, pos.is_loony());
    let (val, _per_move) = calc_value_with_moves(&pos);
    assert_eq!(Value::Loony, val);
}
