use dabengine::examples::{make_chain, multi_chains, p50, p50_bottomleft, p50_bottomright, p50_top};
use dabengine::game::{CompoundPosition, SimplePosition};
use dabengine::splitter::SplittablePosition;

#[test]
fn split_p50() {
    let pos = p50();
    let parts = pos.split();
    assert_eq!(3, parts.len());

    let top_parts: Vec<&SimplePosition> = parts.iter().filter(|&p| p.eq(&p50_top())).collect();
    assert_eq!(1, top_parts.len());

    let bl_parts: Vec<&SimplePosition> =
        parts.iter().filter(|&p| p.eq(&p50_bottomleft())).collect();
    assert_eq!(1, bl_parts.len());

    let br_parts: Vec<&SimplePosition> =
        parts.iter().filter(|&p| p.eq(&p50_bottomright())).collect();
    assert_eq!(1, br_parts.len());
}

#[test]
fn split_unsplittable() {
    let pos = SimplePosition::new_game(3, 3);
    let parts = pos.split();
    assert_eq!(1, parts.len());
    let part = &parts[0];
    assert_eq!(true, part.eq(&pos));
}

#[test]
fn split_compound() {
    let pos = CompoundPosition::new_game(vec![multi_chains(5, 2), multi_chains(5, 2)]);
    let split = pos.split();
    assert_eq!(4, split.len());
    let chains: Vec<&SimplePosition> = split.iter().filter(|&p| p.eq(&make_chain(5))).collect();
    assert_eq!(4, chains.len());
}
