use yenta::heap::{MinMaxTieHeap, TieRule};

fn push_all(h: &mut MinMaxTieHeap, scores: &[u64]) {
    for (tag, s) in scores.iter().enumerate() {
        h.push((*s, tag as u64));
    }
}

fn scores_of(v: Vec<(u64, u64)>) -> Vec<u64> {
    v.into_iter().map(|p| p.0).collect()
}

#[test]
fn test_0() {
    let mut mmth = MinMaxTieHeap::new(2, TieRule::Within(1));
    push_all(&mut mmth, &[1, 2, 2, 2, 3, 3, 3, 4, 5]);
    let (in_min_max_heap, in_ties) = mmth.into_vecs_desc();
    let in_min_max_heap = scores_of(in_min_max_heap);
    let in_ties = scores_of(in_ties);
    println!("Heap: {:?}", in_min_max_heap);
    println!("Ties: {:?}", in_ties);
    assert_eq!(in_min_max_heap, vec![5, 4]);
    assert_eq!(in_ties, vec![3, 3, 3]);
}

#[test]
fn test_1() {
    let mut mmth = MinMaxTieHeap::new(2, TieRule::Within(1));
    push_all(&mut mmth, &[1, 2, 2, 2, 3, 3, 3, 4, 5, 5, 5]);
    let (in_min_max_heap, in_ties) = mmth.into_vecs_desc();
    let in_min_max_heap = scores_of(in_min_max_heap);
    let in_ties = scores_of(in_ties);
    println!("Heap: {:?}", in_min_max_heap);
    println!("Ties: {:?}", in_ties);
    assert_eq!(in_min_max_heap, vec![5, 5]);
    assert_eq!(in_ties, vec![5, 4]);
}

#[test]
fn strict_top_k_keeps_no_ties() {
    let mut mmth = MinMaxTieHeap::new(2, TieRule::NoTies);
    push_all(&mut mmth, &[1, 2, 3, 3, 4]);
    let (main, ties) = mmth.into_vecs_desc();
    assert_eq!(scores_of(main), vec![4, 3]);
    assert!(ties.is_empty());
}

#[test]
fn combined_drain_is_main_then_ties() {
    let mut mmth = MinMaxTieHeap::new(2, TieRule::Within(1));
    push_all(&mut mmth, &[1, 2, 2, 2, 3, 3, 3, 4, 5]);
    let all = scores_of(mmth.into_vec_desc());
    assert_eq!(all, vec![5, 4, 3, 3, 3]);
}
