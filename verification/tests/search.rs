use shut_the_box::search::{check_slice, VecTotal};

fn search(candidates: &[usize], target: usize) -> Option<Vec<usize>> {
    let mut sumvec = VecTotal::new();
    if check_slice(&mut sumvec, candidates, target) {
        assert_eq!(sumvec.total, target);
        Some(sumvec.values)
    } else {
        assert!(sumvec.values.is_empty());
        assert_eq!(sumvec.total, 0);
        None
    }
}

#[test]
fn test_vectotal_push_and_pop() {
    let mut acc = VecTotal::new();
    assert_eq!(acc.total, 0);
    assert!(acc.values.is_empty());
    acc.push(3);
    acc.push(9);
    assert_eq!(acc.values, vec![3, 9]);
    assert_eq!(acc.total, 12);
    assert_eq!(acc.pop(), 9);
    assert_eq!(acc.total, 3);
    assert_eq!(acc.pop(), 3);
    assert_eq!(acc.total, 0);
    assert!(acc.values.is_empty());
}

#[test]
fn test_vectotal_pop_of_nothing() {
    let mut acc = VecTotal::new();
    assert_eq!(acc.pop(), 0);
    assert_eq!(acc.total, 0);
    assert!(acc.values.is_empty());
}

#[test]
fn test_check_slice_empty_list() {
    assert_eq!(search(&[], 0), None);
    assert_eq!(search(&[], 5), None);
}

#[test]
fn test_check_slice_single_hit() {
    assert_eq!(search(&[1, 2, 3], 3), Some(vec![1, 2]));
    assert_eq!(search(&[2, 3], 3), Some(vec![3]));
    assert_eq!(search(&[5], 5), Some(vec![5]));
}

#[test]
fn test_check_slice_first_in_depth_first_order() {
    assert_eq!(search(&[1, 2, 3, 4, 5, 6], 12), Some(vec![1, 2, 3, 6]));
    assert_eq!(search(&[1, 2, 4, 5, 6], 12), Some(vec![1, 2, 4, 5]));
    assert_eq!(search(&[1, 4, 5, 6], 11), Some(vec![1, 4, 6]));
    assert_eq!(search(&[1, 2, 3, 4, 5, 6, 7, 8, 9, 10], 10), Some(vec![1, 2, 3, 4]));
}

#[test]
fn test_check_slice_backtracks_past_an_overshoot() {
    assert_eq!(search(&[1, 2, 4, 5, 6], 11), Some(vec![1, 4, 6]));
    assert_eq!(search(&[2, 3, 7, 8], 10), Some(vec![2, 8]));
    assert_eq!(search(&[3, 5, 6, 7], 13), Some(vec![6, 7]));
}

#[test]
fn test_check_slice_no_hit() {
    assert_eq!(search(&[3, 5], 10), None);
    assert_eq!(search(&[2], 4), None);
    assert_eq!(search(&[1, 2, 4], 8), None);
    assert_eq!(search(&[7, 8, 9], 6), None);
}

#[test]
fn test_check_slice_keeps_what_was_chosen() {
    let mut sumvec = VecTotal::new();
    sumvec.push(1);
    assert!(check_slice(&mut sumvec, &[2, 3, 4], 8));
    assert_eq!(sumvec.values, vec![1, 3, 4]);
    assert_eq!(sumvec.total, 8);

    let mut sumvec = VecTotal::new();
    sumvec.push(1);
    assert!(!check_slice(&mut sumvec, &[2, 3], 5));
    assert_eq!(sumvec.values, vec![1]);
    assert_eq!(sumvec.total, 1);
}

#[test]
fn test_check_slice_from_a_total_above_the_target() {
    let mut sumvec = VecTotal::new();
    sumvec.push(9);
    assert!(!check_slice(&mut sumvec, &[1, 2, 3], 5));
    assert_eq!(sumvec.values, vec![9]);
    assert_eq!(sumvec.total, 9);
}

#[test]
fn test_check_slice_agrees_with_every_subset() {
    let candidates = [1usize, 2, 3, 5, 8, 13];
    for target in 0..=40usize {
        let mut best: Option<Vec<usize>> = None;
        for mask in 1u32..(1u32 << candidates.len()) {
            let picked: Vec<usize> = candidates
                .iter()
                .enumerate()
                .filter(|(place, _)| mask & (1 << place) != 0)
                .map(|(_, value)| *value)
                .collect();
            if picked.iter().sum::<usize>() == target {
                let earlier = match &best {
                    None => true,
                    Some(found) => picked < *found,
                };
                if earlier {
                    best = Some(picked);
                }
            }
        }
        assert_eq!(search(&candidates, target), best, "target={}", target);
    }
}

#[test]
fn test_check_slice_large_values_do_not_overflow() {
    let big = usize::MAX - 1;
    assert_eq!(search(&[2, big], usize::MAX), None);
    assert_eq!(search(&[1, big], usize::MAX), Some(vec![1, big]));
}
