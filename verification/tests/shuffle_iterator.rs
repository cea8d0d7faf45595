use std::collections::VecDeque;

use oxitortoise::rng::Rng;
use oxitortoise::shuffle_iterator::ShuffledOwned;

/// Utility class to simulate an RNG for testing purposes
#[derive(Debug)]
struct R {
    remaining: VecDeque<i64>,
}

impl Rng for R {
    fn draw(&self, _max: i64) -> i64 {
        self.remaining[0]
    }

    fn after_draw(&self, _max: i64) -> Self {
        let mut rest = self.remaining.clone();
        rest.pop_front();
        R { remaining: rest }
    }

    fn next_int(&mut self, max: i64) -> i64 {
        let next = self.remaining.pop_front().unwrap();
        assert!(0 <= next && next < max);
        next
    }
}

#[test]
fn test_shuffle_owned_iterator() {
    let mut rng = R { remaining: vec![5, 2, 2, 2, 0, 0].into() };
    let items = vec![0, 1, 2, 3, 4, 5].into();
    let mut iter = ShuffledOwned::new(items);

    assert_eq!(iter.next(&mut rng), Some(5));
    assert_eq!(iter.next(&mut rng), Some(3));
    assert_eq!(iter.next(&mut rng), Some(4));
    assert_eq!(iter.next(&mut rng), Some(0));
    assert_eq!(iter.next(&mut rng), Some(2));
    assert_eq!(iter.next(&mut rng), Some(1));
}

#[test]
fn shuffle_take_at_moves_first_into_place() {
    let items: VecDeque<u32> = vec![10, 20, 30, 40].into();
    let mut iter = ShuffledOwned::new(items);
    assert_eq!(iter.take_at(2), Some(30));
    // 10 took the place of 30: the remaining order is 20, 10, 40
    assert_eq!(iter.take_at(1), Some(10));
    assert_eq!(iter.take_at(0), Some(20));
    assert_eq!(iter.take_at(0), Some(40));
    assert_eq!(iter.take_at(0), None);
}

#[test]
fn shuffle_of_empty_yields_nothing() {
    let mut rng = R { remaining: VecDeque::new() };
    let mut iter: ShuffledOwned<u32> = ShuffledOwned::new(VecDeque::new());
    assert_eq!(iter.next(&mut rng), None);
}

#[test]
fn shuffle_yields_every_item_once() {
    let mut rng = R { remaining: vec![3, 0, 2, 1, 0].into() };
    let mut iter = ShuffledOwned::new(vec![1u32, 2, 3, 4, 5].into());
    let mut seen = Vec::new();
    while let Some(x) = iter.next(&mut rng) {
        seen.push(x);
    }
    seen.sort();
    assert_eq!(seen, vec![1, 2, 3, 4, 5]);
}
