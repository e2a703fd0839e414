use min_heap::order::ranks_before;
use min_heap::sift::{bubble_up, get_children_index, get_parent_index, sink_down};
use min_heap::vec_heap::{heapify, pop, push};
use min_heap::Priority;
use std::cmp::Ordering;

/// A value that is ordered by its key alone.
#[derive(Debug, Clone, Copy)]
struct Tagged {
    key: i32,
    tag: char,
}

impl PartialEq for Tagged {
    fn eq(&self, other: &Self) -> bool {
        self.key == other.key
    }
}

impl Eq for Tagged {}

impl PartialOrd for Tagged {
    fn partial_cmp(&self, other: &Self) -> Option<Ordering> {
        Some(self.cmp(other))
    }
}

impl Ord for Tagged {
    fn cmp(&self, other: &Self) -> Ordering {
        self.key.cmp(&other.key)
    }
}

fn tags(data: &[Tagged]) -> String {
    data.iter().map(|value| value.tag).collect()
}

fn is_heap(data: &[i32], priority: Priority) -> bool {
    (1..data.len()).all(|i| match priority {
        Priority::Smallest => data[(i - 1) / 2] <= data[i],
        Priority::Largest => data[(i - 1) / 2] >= data[i],
    })
}

#[test]
fn parent_index_of_odd_and_even_positions() {
    assert_eq!(get_parent_index(1), 0);
    assert_eq!(get_parent_index(2), 0);
    assert_eq!(get_parent_index(3), 1);
    assert_eq!(get_parent_index(4), 1);
    assert_eq!(get_parent_index(5), 2);
    assert_eq!(get_parent_index(6), 2);
    assert_eq!(get_parent_index(13), 6);
    assert_eq!(get_parent_index(14), 6);
    assert_eq!(get_parent_index(usize::MAX), (usize::MAX - 1) / 2);
}

#[test]
fn children_index_of_positions() {
    assert_eq!(get_children_index(0), (1, 2));
    assert_eq!(get_children_index(1), (3, 4));
    assert_eq!(get_children_index(2), (5, 6));
    assert_eq!(get_children_index(6), (13, 14));
    let last = (usize::MAX - 2) / 2;
    assert_eq!(get_children_index(last), (usize::MAX - 2, usize::MAX - 1));
}

#[test]
fn parent_of_each_child_is_the_position() {
    for index in 0..100usize {
        let (left, right) = get_children_index(index);
        assert_eq!(get_parent_index(left), index);
        assert_eq!(get_parent_index(right), index);
    }
}

#[test]
fn bubble_up_to_the_root() {
    let mut data = vec![1, 5, 3, 0];
    bubble_up(&mut data, 3, Priority::Smallest);
    assert_eq!(data, vec![0, 1, 3, 5]);
}

#[test]
fn bubble_up_stops_below_a_parent_that_is_not_larger() {
    let mut data = vec![1, 5, 3, 9, 4];
    bubble_up(&mut data, 4, Priority::Smallest);
    assert_eq!(data, vec![1, 4, 3, 9, 5]);
    let mut same = vec![1, 5, 3, 9, 5];
    bubble_up(&mut same, 4, Priority::Smallest);
    assert_eq!(same, vec![1, 5, 3, 9, 5]);
}

#[test]
fn bubble_up_at_the_root_does_nothing() {
    let mut data = vec![9, 1, 2];
    bubble_up(&mut data, 0, Priority::Smallest);
    assert_eq!(data, vec![9, 1, 2]);
}

#[test]
fn bubble_up_at_the_root_of_an_empty_vector_does_nothing() {
    let mut empty: Vec<i32> = Vec::new();
    bubble_up(&mut empty, 0, Priority::Smallest);
    assert!(empty.is_empty());
    bubble_up(&mut empty, 0, Priority::Largest);
    assert!(empty.is_empty());
    let mut one = vec![3];
    bubble_up(&mut one, 0, Priority::Smallest);
    assert_eq!(one, vec![3]);
}

#[test]
fn bubble_up_does_not_pass_an_equal_parent() {
    let mut data = vec![
        Tagged { key: 1, tag: 'a' },
        Tagged { key: 2, tag: 'b' },
        Tagged { key: 1, tag: 'c' },
    ];
    bubble_up(&mut data, 2, Priority::Smallest);
    assert_eq!(tags(&data), "abc");
    bubble_up(&mut data, 2, Priority::Largest);
    assert_eq!(tags(&data), "abc");
}

#[test]
fn bubble_up_in_a_max_heap() {
    let mut data = vec![9, 5, 7, 1, 8];
    bubble_up(&mut data, 4, Priority::Largest);
    assert_eq!(data, vec![9, 8, 7, 1, 5]);
}

#[test]
fn sink_down_below_the_smaller_child() {
    let mut data = vec![9, 2, 3, 4, 5];
    sink_down(&mut data, 0, Priority::Smallest);
    assert_eq!(data, vec![2, 4, 3, 9, 5]);
    let mut other = vec![9, 3, 2, 4, 5, 8, 7];
    sink_down(&mut other, 0, Priority::Smallest);
    assert_eq!(other, vec![2, 3, 7, 4, 5, 8, 9]);
}

#[test]
fn sink_down_with_one_child_only() {
    let mut data = vec![1, 9, 3, 4];
    sink_down(&mut data, 1, Priority::Smallest);
    assert_eq!(data, vec![1, 4, 3, 9]);
    let mut stays = vec![1, 2, 3, 4];
    sink_down(&mut stays, 1, Priority::Smallest);
    assert_eq!(stays, vec![1, 2, 3, 4]);
}

#[test]
fn sink_down_stops_above_children_that_are_not_smaller() {
    let mut data = vec![2, 2, 3];
    sink_down(&mut data, 0, Priority::Smallest);
    assert_eq!(data, vec![2, 2, 3]);
    let mut tagged = vec![
        Tagged { key: 2, tag: 'a' },
        Tagged { key: 2, tag: 'b' },
        Tagged { key: 2, tag: 'c' },
    ];
    sink_down(&mut tagged, 0, Priority::Smallest);
    assert_eq!(tags(&tagged), "abc");
}

#[test]
fn sink_down_takes_the_second_of_two_equal_children() {
    let mut data = vec![
        Tagged { key: 5, tag: 'a' },
        Tagged { key: 1, tag: 'b' },
        Tagged { key: 1, tag: 'c' },
    ];
    sink_down(&mut data, 0, Priority::Smallest);
    assert_eq!(tags(&data), "cba");
}

#[test]
fn sink_down_without_children_or_outside_does_nothing() {
    let mut data = vec![1, 2, 9];
    sink_down(&mut data, 2, Priority::Largest);
    assert_eq!(data, vec![1, 2, 9]);
    sink_down(&mut data, 3, Priority::Smallest);
    assert_eq!(data, vec![1, 2, 9]);
    sink_down(&mut data, usize::MAX, Priority::Smallest);
    assert_eq!(data, vec![1, 2, 9]);
    let mut empty: Vec<i32> = Vec::new();
    sink_down(&mut empty, 0, Priority::Smallest);
    assert!(empty.is_empty());
}

#[test]
fn sink_down_in_a_max_heap() {
    let mut data = vec![1, 8, 9, 4, 5];
    sink_down(&mut data, 0, Priority::Largest);
    assert_eq!(data, vec![9, 8, 1, 4, 5]);
}

#[test]
fn push_gives_the_layout_of_bubbling_up() {
    let mut data: Vec<i32> = Vec::new();
    let layouts: [&[i32]; 7] = [
        &[19238],
        &[477, 19238],
        &[477, 19238, 827],
        &[19, 477, 827, 19238],
        &[19, 25, 827, 19238, 477],
        &[3, 25, 19, 19238, 477, 827],
        &[1, 25, 3, 19238, 477, 827, 19],
    ];
    for (value, layout) in [19238, 477, 827, 19, 25, 3, 1].into_iter().zip(layouts) {
        push(&mut data, value, Priority::Smallest);
        assert_eq!(data.as_slice(), layout);
    }
}

#[test]
fn pop_gives_the_layout_of_sinking_down() {
    let mut data = vec![1, 25, 3, 19238, 477, 827, 19];
    assert_eq!(pop(&mut data, Priority::Smallest), Some(1));
    assert_eq!(data, vec![3, 25, 19, 19238, 477, 827]);
    assert_eq!(pop(&mut data, Priority::Smallest), Some(3));
    assert_eq!(data, vec![19, 25, 827, 19238, 477]);
    assert_eq!(pop(&mut data, Priority::Smallest), Some(19));
    assert_eq!(data, vec![25, 477, 827, 19238]);
}

#[test]
fn pop_of_one_and_of_none() {
    let mut data = vec![5];
    assert_eq!(pop(&mut data, Priority::Largest), Some(5));
    assert!(data.is_empty());
    assert_eq!(pop(&mut data, Priority::Largest), None);
    assert!(data.is_empty());
}

#[test]
fn heap_invariant_after_every_call() {
    for priority in [Priority::Smallest, Priority::Largest] {
        let mut data: Vec<i32> = Vec::new();
        let mut seed: u32 = 12345;
        for step in 0..400 {
            seed = seed.wrapping_mul(1664525).wrapping_add(1013904223);
            if step % 4 == 3 {
                pop(&mut data, priority);
            } else {
                push(&mut data, (seed >> 16) as i32 % 50, priority);
            }
            assert!(is_heap(&data, priority));
        }
        assert_eq!(data.len(), 200);
    }
}

#[test]
fn heapify_is_push_by_push() {
    let items = vec![19238, 477, 827, 19, 25, 3, 1];
    let mut at_once = vec![0];
    let mut one_by_one = vec![0];
    heapify(&mut at_once, items.clone(), Priority::Largest);
    for item in items {
        push(&mut one_by_one, item, Priority::Largest);
    }
    assert_eq!(at_once, one_by_one);
    assert_eq!(at_once, vec![19238, 827, 477, 1, 19, 25, 3, 0]);
}

#[test]
fn ranks_before_follows_the_priority() {
    assert!(ranks_before(Priority::Smallest, &1, &2));
    assert!(!ranks_before(Priority::Smallest, &2, &1));
    assert!(!ranks_before(Priority::Smallest, &2, &2));
    assert!(ranks_before(Priority::Largest, &2, &1));
    assert!(!ranks_before(Priority::Largest, &1, &2));
    assert!(!ranks_before(Priority::Largest, &2, &2));
    let low = Tagged { key: 1, tag: 'x' };
    let same = Tagged { key: 1, tag: 'y' };
    assert!(!ranks_before(Priority::Smallest, &low, &same));
    assert!(!ranks_before(Priority::Largest, &low, &same));
}
