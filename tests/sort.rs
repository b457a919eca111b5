use ford_johnson::partners::PartnerStacks;
use ford_johnson::sort;
use rand::seq::SliceRandom;
use rand::Rng;
use rand::SeedableRng;
use std::cmp::Ordering;

fn count_cmps(mut xs: Vec<usize>) -> usize {
    let mut cnt = 0;
    sort(&mut xs, &mut |a: usize, b: usize| {
        cnt += 1;
        a.cmp(&b)
    });
    cnt
}

fn sorted_copy(xs: &[usize]) -> Vec<usize> {
    let mut ys = xs.to_vec();
    ys.sort();
    ys
}

#[test]
fn sorts_correctly_smoke() {
    let mut xs = vec![3, 5, 1, 2, 4];
    sort(&mut xs, &mut |a, b| a.cmp(&b));
    assert_eq!(xs, vec![1, 2, 3, 4, 5]);
}

#[test]
fn sorts_correctly_random() {
    let init: Vec<usize> = (0..100).collect();
    let mut prng = rand_pcg::Pcg32::seed_from_u64(42);
    for _ in 0..1000 {
        let mut xs = init.clone();
        xs.shuffle(&mut prng);
        sort(&mut xs, &mut |a, b| a.cmp(&b));
        assert_eq!(xs, init);
    }
}

#[test]
fn manual() {
    let mut xs: Vec<usize> = (0..8).collect();
    sort(&mut xs, &mut |a: usize, b: usize| {
        println!("cmp {} vs {}", a, b);
        a.cmp(&b)
    });
}

#[test]
fn right_number_of_comparisons_smoke() {
    assert_eq!(count_cmps(vec![3, 5, 1, 2, 4]), 7);
}

#[test]
fn right_number_of_comparisons_eois() {
    let expected = vec![
        0, 1, 3, 5, 7, 10, 13, 16, 19, 22, 26, 30, 34, 38, 42, 46, 50, 54, 58, 62, 66, 71, 76,
        81, 86, 91, 96, 101, 106, 111, 116, 121, 126, 131, 136, 141, 146, 151, 156, 161, 166,
        171, 177, 183, 189, 195, 201, 207, 213, 219, 225, 231, 237, 243, 249, 255,
    ];
    for (i, n) in expected.into_iter().enumerate() {
        let a = count_cmps((0..i + 1).collect());
        assert!(
            a <= n,
            "{} items can be sorted in {} cmps but we used {}",
            i + 1,
            n,
            a
        );
    }
}

#[test]
fn right_number_of_comparisons_knuth() {
    // a(n) = Sum_{k=1..n} ceiling(log_2 (3k/4))
    for n in 1..500 {
        let expected: usize = (1..=n)
            .map(|k| f64::ceil(f64::log2(3.0 * k as f64 / 4.0)) as usize)
            .sum();
        let actual = count_cmps((0..n).collect());
        assert!(
            actual <= expected,
            "{} items can be sorted in {} cmps but we used {}",
            n,
            expected,
            actual,
        );
    }
}

#[test]
fn right_number_of_comparisons_big() {
    let mut xs: Vec<usize> = (0..100).collect();
    let mut prng = rand_pcg::Pcg32::seed_from_u64(999);
    xs.shuffle(&mut prng);
    assert_eq!(count_cmps(xs), 530);
}

#[test]
fn sorts_like_std_on_random_vectors() {
    let mut prng = rand_pcg::Pcg32::seed_from_u64(7);
    for _ in 0..500 {
        let len = prng.gen_range(0..60);
        let xs: Vec<usize> = (0..len).map(|_| prng.gen_range(0..20)).collect();
        let mut ys = xs.clone();
        sort(&mut ys, &mut |a, b| a.cmp(&b));
        assert_eq!(ys, sorted_copy(&xs));
    }
}

#[test]
fn empty_and_single_inputs_make_no_calls() {
    let mut empty: Vec<usize> = vec![];
    let mut calls = 0;
    sort(&mut empty, &mut |a: usize, b: usize| {
        calls += 1;
        a.cmp(&b)
    });
    assert!(empty.is_empty());
    let mut one = vec![42];
    sort(&mut one, &mut |a: usize, b: usize| {
        calls += 1;
        a.cmp(&b)
    });
    assert_eq!(one, vec![42]);
    assert_eq!(calls, 0);
}

#[test]
fn two_keys_take_one_call() {
    assert_eq!(count_cmps(vec![9, 4]), 1);
    let mut xs = vec![9, 4];
    sort(&mut xs, &mut |a, b| a.cmp(&b));
    assert_eq!(xs, vec![4, 9]);
}

#[test]
fn reverse_sorted_input() {
    let mut xs: Vec<usize> = (0..37).rev().collect();
    sort(&mut xs, &mut |a, b| a.cmp(&b));
    assert_eq!(xs, (0..37).collect::<Vec<usize>>());
}

#[test]
fn sorted_input_stays_as_it_was() {
    for n in 0..40 {
        let init: Vec<usize> = (0..n).map(|k| k / 3).collect();
        let mut xs = init.clone();
        sort(&mut xs, &mut |a, b| a.cmp(&b));
        assert_eq!(xs, init);
    }
}

#[test]
fn cycled_duplicates() {
    for n in 0..120 {
        let init: Vec<usize> = (0..n / 2 + 1).flat_map(|k| vec![k, k]).take(n).collect();
        let mut prng = rand_pcg::Pcg32::seed_from_u64(n as u64);
        let mut xs = init.clone();
        xs.shuffle(&mut prng);
        sort(&mut xs, &mut |a, b| a.cmp(&b));
        assert_eq!(xs, sorted_copy(&init));
    }
}

#[test]
fn all_keys_equal() {
    let mut xs = vec![5; 17];
    sort(&mut xs, &mut |a, b| a.cmp(&b));
    assert_eq!(xs, vec![5; 17]);
}

#[test]
fn indirect_sort_by_payload() {
    let words = ["pear", "fig", "banana", "kiwi", "apple", "date", "cherry"];
    let mut order: Vec<usize> = (0..words.len()).collect();
    sort(&mut order, &mut |a, b| words[a].cmp(words[b]));
    assert_eq!(order, vec![4, 2, 6, 5, 1, 3, 0]);
}

#[test]
fn descending_comparator() {
    let mut xs = vec![3, 8, 1, 8, 0, 5];
    sort(&mut xs, &mut |a, b| b.cmp(&a));
    assert_eq!(xs, vec![8, 8, 5, 3, 1, 0]);
}

#[test]
fn inconsistent_comparator_keeps_the_keys() {
    let mut prng = rand_pcg::Pcg32::seed_from_u64(3);
    for n in 0..50 {
        let init: Vec<usize> = (0..n).map(|k| (k * 7) % 11).collect();
        let mut xs = init.clone();
        sort(&mut xs, &mut |_, _| match prng.gen_range(0..3) {
            0 => Ordering::Less,
            1 => Ordering::Equal,
            _ => Ordering::Greater,
        });
        assert_eq!(sorted_copy(&xs), sorted_copy(&init));
    }
}

#[test]
fn all_equal_answers_are_not_stable() {
    let mut xs = vec![0, 1];
    sort(&mut xs, &mut |_, _| Ordering::Equal);
    assert_eq!(xs, vec![1, 0]);
}

#[test]
fn same_input_makes_same_calls() {
    let input = vec![6, 2, 9, 2, 7, 1, 8, 0, 4];
    let mut first = Vec::new();
    let mut xs = input.clone();
    sort(&mut xs, &mut |a: usize, b: usize| {
        first.push((a, b));
        a.cmp(&b)
    });
    let mut second = Vec::new();
    let mut ys = input.clone();
    sort(&mut ys, &mut |a: usize, b: usize| {
        second.push((a, b));
        a.cmp(&b)
    });
    assert_eq!(first, second);
    assert_eq!(xs, ys);
}

#[test]
fn partner_stacks_hand_back_last_recorded_first() {
    let mut stacks = PartnerStacks::new();
    stacks.push(7, 1);
    stacks.push(3, 2);
    stacks.push(7, 4);
    stacks.push(7, 5);
    assert_eq!(stacks.pop(7), 5);
    assert_eq!(stacks.pop(3), 2);
    assert_eq!(stacks.pop(7), 4);
    assert_eq!(stacks.pop(7), 1);
}

#[test]
fn sorts_arrays_and_sub_slices() {
    let mut arr = [4usize, 0, 3, 1, 2];
    sort(&mut arr, &mut |a, b| a.cmp(&b));
    assert_eq!(arr, [0, 1, 2, 3, 4]);
    let mut xs = vec![9, 5, 3, 4, 1, 0];
    sort(&mut xs[1..5], &mut |a, b| a.cmp(&b));
    assert_eq!(xs, vec![9, 1, 3, 4, 5, 0]);
}

#[test]
fn comparator_consistent_only_on_the_input_keys() {
    let mut xs = vec![3, 1, 2];
    sort(&mut xs, &mut |a: usize, b: usize| if a < 10 && b < 10 { a.cmp(&b) } else { Ordering::Less });
    assert_eq!(xs, vec![1, 2, 3]);
}

#[test]
fn sorted_input_under_a_descending_order_stays() {
    let init = vec![9, 7, 7, 4, 2, 0];
    let mut xs = init.clone();
    sort(&mut xs, &mut |a, b| b.cmp(&a));
    assert_eq!(xs, init);
}
