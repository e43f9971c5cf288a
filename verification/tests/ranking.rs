use plato_sim_bridge::order::{rank_by_quality, stable_order_by_key};

#[test]
fn highest_quality_first() {
    let q: Vec<u32> = vec![0.3f32, 0.9, 0.5].iter().map(|x| x.to_bits()).collect();
    assert_eq!(rank_by_quality(&q), vec![1, 2, 0]);
}

#[test]
fn equal_qualities_keep_their_order() {
    let q: Vec<u32> = vec![0.8f32, 0.4, 0.8, 0.4, 1.0].iter().map(|x| x.to_bits()).collect();
    assert_eq!(rank_by_quality(&q), vec![4, 0, 2, 1, 3]);
}

#[test]
fn ranking_nothing() {
    assert!(rank_by_quality(&Vec::new()).is_empty());
}

#[test]
fn ticks_ascend_with_ties_in_order() {
    let ticks = vec![50u32, 0, 50, 7, 0];
    assert_eq!(stable_order_by_key(&ticks), vec![1, 4, 3, 0, 2]);
}
