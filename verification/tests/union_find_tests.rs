use kruskal_maze::union_find::{Node, NodeIdx, UnionFind, UnionFindSetCmp, A};

fn forest_of(count: usize) -> (A, Vec<NodeIdx>) {
    let mut forest = A::new();
    let mut handles = Vec::new();
    for _ in 0..count {
        handles.push(forest.add_element());
    }
    (forest, handles)
}

/// The classes of `0..count` after the unions, found the slow way.
fn labels_after(count: usize, unions: &[(usize, usize)]) -> Vec<usize> {
    let mut labels: Vec<usize> = (0..count).collect();
    for &(a, b) in unions {
        let from = labels[a];
        let to = labels[b];
        for label in labels.iter_mut() {
            if *label == from {
                *label = to;
            }
        }
    }
    labels
}

#[test]
fn three_elements_join_step_by_step() {
    let mut forest = A::new();
    let a = forest.add_element();
    let b = forest.add_element();
    let c = forest.add_element();

    assert!(!forest.is_in_same_set(a, b));
    assert!(!forest.is_in_same_set(a, c));
    assert!(!forest.is_in_same_set(b, c));

    forest.union(a, b);
    assert!(forest.is_in_same_set(a, b));
    assert!(!forest.is_in_same_set(a, c));

    forest.union(b, c);
    assert!(forest.is_in_same_set(a, b));
    assert!(forest.is_in_same_set(a, c));
    assert!(forest.is_in_same_set(b, c));
}

#[test]
fn handles_count_up_from_zero() {
    let (_, handles) = forest_of(4);
    for (place, handle) in handles.iter().enumerate() {
        assert_eq!(**handle, place);
    }
    assert_ne!(handles[0], handles[1]);
    assert_eq!(handles[2], handles[2]);
}

#[test]
fn default_handle_is_the_first() {
    let (_, handles) = forest_of(1);
    assert_eq!(NodeIdx::default(), handles[0]);
}

#[test]
fn a_new_element_is_its_own_root() {
    let (mut forest, handles) = forest_of(3);
    for handle in handles {
        assert_eq!(forest.find(handle), handle);
    }
}

#[test]
fn an_element_is_in_its_own_set() {
    let (mut forest, handles) = forest_of(2);
    assert!(forest.is_in_same_set(handles[0], handles[0]));
    assert!(forest.is_in_same_set(handles[1], handles[1]));
}

#[test]
fn of_two_sets_of_one_size_the_second_keeps_its_root() {
    let (mut forest, handles) = forest_of(2);
    forest.union(handles[0], handles[1]);
    assert_eq!(forest.find(handles[0]), handles[1]);
    assert_eq!(forest.find(handles[1]), handles[1]);
}

#[test]
fn the_larger_set_keeps_its_root() {
    let (mut forest, handles) = forest_of(3);
    forest.union(handles[0], handles[1]);
    // {0, 1} has root 1 and is larger than {2}, whichever comes first.
    forest.union(handles[0], handles[2]);
    assert_eq!(forest.find(handles[2]), handles[1]);

    let (mut forest, handles) = forest_of(3);
    forest.union(handles[0], handles[1]);
    forest.union(handles[2], handles[0]);
    assert_eq!(forest.find(handles[2]), handles[1]);
}

#[test]
fn sizes_stay_right_after_many_finds() {
    // {0, 1, 2} is built and its paths are compressed over and over; the
    // set must still outweigh {3, 4} when the two are joined.
    let (mut forest, handles) = forest_of(5);
    forest.union(handles[0], handles[1]);
    forest.union(handles[2], handles[0]);
    for _ in 0..10 {
        for place in 0..3 {
            assert_eq!(forest.find(handles[place]), handles[1]);
        }
    }
    forest.union(handles[3], handles[4]);
    forest.union(handles[0], handles[3]);
    for place in 0..5 {
        assert_eq!(forest.find(handles[place]), handles[1]);
    }
}

#[test]
fn a_long_chain_is_compressed_and_keeps_its_root() {
    // 0-1, 2-3, then the two pairs: 0 hangs two steps below the root.
    let (mut forest, handles) = forest_of(8);
    forest.union(handles[0], handles[1]);
    forest.union(handles[2], handles[3]);
    forest.union(handles[1], handles[3]);
    forest.union(handles[4], handles[5]);
    forest.union(handles[6], handles[7]);
    forest.union(handles[5], handles[7]);
    forest.union(handles[3], handles[7]);
    let root = forest.find(handles[0]);
    assert_eq!(root, handles[7]);
    for place in 0..8 {
        assert_eq!(forest.find(handles[place]), root);
        assert_eq!(forest.find(handles[place]), root);
    }
}

#[test]
fn union_twice_is_union_once() {
    let (mut once, handles) = forest_of(4);
    once.union(handles[0], handles[1]);
    once.union(handles[2], handles[1]);

    let (mut twice, _) = forest_of(4);
    twice.union(handles[0], handles[1]);
    twice.union(handles[0], handles[1]);
    twice.union(handles[2], handles[1]);
    twice.union(handles[2], handles[1]);

    for a in 0..4 {
        assert_eq!(once.find(handles[a]), twice.find(handles[a]));
        for b in 0..4 {
            assert_eq!(
                once.is_in_same_set(handles[a], handles[b]),
                twice.is_in_same_set(handles[a], handles[b])
            );
        }
    }
}

#[test]
fn find_gives_the_same_root_again() {
    let (mut forest, handles) = forest_of(6);
    forest.union(handles[0], handles[1]);
    forest.union(handles[1], handles[2]);
    forest.union(handles[4], handles[5]);
    for handle in handles {
        let first = forest.find(handle);
        for _ in 0..5 {
            assert_eq!(forest.find(handle), first);
        }
    }
}

#[test]
fn same_set_is_what_chains_of_unions_join() {
    let count = 12;
    let unions = [(0, 1), (2, 3), (1, 3), (5, 6), (7, 6), (3, 0), (9, 10), (10, 11), (6, 9)];
    for upto in 0..=unions.len() {
        let (mut forest, handles) = forest_of(count);
        for &(a, b) in &unions[..upto] {
            forest.union(handles[a], handles[b]);
        }
        let labels = labels_after(count, &unions[..upto]);
        for a in 0..count {
            for b in 0..count {
                assert_eq!(
                    forest.is_in_same_set(handles[a], handles[b]),
                    labels[a] == labels[b],
                    "after {upto} unions, elements {a} and {b}"
                );
            }
        }
    }
}

#[test]
fn same_set_is_symmetric_and_transitive() {
    let (mut forest, handles) = forest_of(7);
    forest.union(handles[0], handles[4]);
    forest.union(handles[4], handles[6]);
    forest.union(handles[2], handles[3]);
    for a in 0..7 {
        for b in 0..7 {
            let ab = forest.is_in_same_set(handles[a], handles[b]);
            assert_eq!(ab, forest.is_in_same_set(handles[b], handles[a]));
            for c in 0..7 {
                if ab && forest.is_in_same_set(handles[b], handles[c]) {
                    assert!(forest.is_in_same_set(handles[a], handles[c]));
                }
            }
        }
    }
}

#[test]
fn elements_added_later_stand_alone() {
    let (mut forest, handles) = forest_of(2);
    forest.union(handles[0], handles[1]);
    let late = forest.add_element();
    assert_eq!(*late, 2);
    assert!(!forest.is_in_same_set(late, handles[0]));
    assert!(forest.is_in_same_set(handles[0], handles[1]));
    assert_eq!(forest.find(late), late);
}

#[test]
fn records_are_equal_by_their_element() {
    let (_, handles) = forest_of(2);
    assert!(Node::new(handles[0]) == Node::new(handles[0]));
    assert!(Node::new(handles[0]) != Node::new(handles[1]));
}
