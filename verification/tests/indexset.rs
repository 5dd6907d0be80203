use bvr::indexset::BTreeSet;
use bvr::node::{Node, DEFAULT_CUTOFF, DEFAULT_INNER_SIZE};

#[test]
fn test_insert() {
    let input: Vec<usize> = vec![1, 9, 2, 7, 6, 3, 5, 4, 10, 8];

    let expected_output: Vec<usize> = vec![1, 2, 3, 4, 5, 6, 7, 8, 9, 10];

    let actual_node = input
        .iter()
        .fold(Node::new(DEFAULT_INNER_SIZE), |mut acc, curr| {
            acc.insert(*curr);
            acc
        });

    let actual_output: Vec<usize> = actual_node.items();

    assert_eq!(expected_output, actual_output);
    assert_eq!(actual_node.max().unwrap(), 10);
}

#[test]
fn test_halve() {
    let mut input: Vec<usize> = vec![];
    for item in 0..DEFAULT_INNER_SIZE {
        input.push(item);
    }

    let mut former_node = Node::new(DEFAULT_INNER_SIZE);
    input.iter().for_each(|item| {
        former_node.insert(*item);
    });
    let latter_node = former_node.halve();

    let expected_former_output: Vec<usize> = input[0..DEFAULT_CUTOFF].to_vec();
    let expected_latter_output: Vec<usize> = input[DEFAULT_CUTOFF..].to_vec();

    let actual_former_output: Vec<usize> = former_node.items();
    let actual_latter_output: Vec<usize> = latter_node.items();

    assert_eq!(expected_former_output, actual_former_output);
    assert_eq!(expected_latter_output, actual_latter_output);
}

#[test]
fn test_insert_btree() {
    // This will cause the btree to have at least more than one node
    let input = (0..=(DEFAULT_INNER_SIZE * 10)).into_iter().rev();
    let expected_output: Vec<usize> = (0..=(DEFAULT_INNER_SIZE * 10)).collect();

    let btree: BTreeSet = input
        .into_iter()
        .fold(BTreeSet::new(), |acc, curr| acc.insert_update(curr));
    assert!(btree.node_count() > 1);

    assert_eq!(btree.len(), expected_output.len());
    for i in 0..=btree.len() {
        assert_eq!(btree.get_index(i), expected_output.get(i).copied());
    }
}

#[test]
fn test_insert_btree_stress() {
    // This will cause the btree to have at least more than one node
    let input = (0..(DEFAULT_INNER_SIZE * 5000)).step_by(1000).rev();
    let expected_output: Vec<usize> = (0..(DEFAULT_INNER_SIZE * 5000)).step_by(1000).collect();

    let btree: BTreeSet = input
        .into_iter()
        .fold(BTreeSet::new(), |acc, curr| acc.insert_update(curr));
    assert!(btree.node_count() > 1);

    assert_eq!(btree.len(), expected_output.len());
    for i in 0..=btree.len() {
        assert_eq!(btree.get_index(i), expected_output.get(i).copied());
    }
}

#[test]
fn test_insert_btree_stress2() {
    // This will cause the btree to have at least more than one node
    let input = (0..15_000_000).step_by(100).rev();
    let input_len = input.len();
    let expected_output: Vec<usize> = (0..15_000_000).step_by(100).collect();

    let btree: BTreeSet = input
        .into_iter()
        .fold(BTreeSet::new(), |acc, curr| acc.insert_update(curr));

    assert_eq!(btree.len(), expected_output.len());
    for i in 0..=btree.len() {
        assert_eq!(btree.get_index(i), expected_output.get(i).copied());
    }

    let input2 = (100_000..100_500).rev();
    let btree = input2
        .into_iter()
        .fold(btree, |acc, curr| acc.insert_update(curr));
    assert!(btree.node_count() > 1);

    assert_eq!(btree.len(), input_len + 495);

    let input3 = (10_000_000..10_000_500).rev();
    let btree = input3
        .into_iter()
        .fold(btree, |acc, curr| acc.insert_update(curr));
    assert!(btree.node_count() > 1);

    assert_eq!(btree.len(), input_len + 495 * 2);
}

#[test]
fn test_insert_duplicates() {
    let input: Vec<usize> = (0..(DEFAULT_INNER_SIZE + 1))
        .into_iter()
        .rev()
        .cycle()
        .take(DEFAULT_INNER_SIZE * 3)
        .collect();
    let expected_output: Vec<usize> = (0..(DEFAULT_INNER_SIZE + 1)).collect();

    let btree: BTreeSet = input
        .into_iter()
        .fold(BTreeSet::new(), |acc, curr| acc.insert_update(curr));
    assert!(btree.node_count() > 1);

    let mut actual_output: Vec<usize> = vec![];
    for i in 0..btree.len() {
        actual_output.push(btree.get_index(i).unwrap());
    }
    assert_eq!(expected_output.len(), actual_output.len());
    assert_eq!(expected_output, actual_output);
}

#[test]
fn test_remove() {
    let input = 0..(DEFAULT_INNER_SIZE + 1);

    let btree: BTreeSet = input
        .clone()
        .fold(BTreeSet::new(), |acc, curr| acc.insert_update(curr.clone()));

    let new_tree = input.fold(btree, |acc, item| acc.remove_update(item));

    assert_eq!(new_tree.len(), 0);
}

#[test]
fn test_get_contains_lower_bound() {
    let input = (0..(DEFAULT_INNER_SIZE + 1)).into_iter().rev();
    let expected_output: Vec<usize> = (0..(DEFAULT_INNER_SIZE + 1)).collect();

    let btree: BTreeSet =
        input.fold(BTreeSet::new(), |acc, curr| acc.insert_update(curr.clone()));

    expected_output.into_iter().for_each(|item| {
        assert_eq!(btree.get_index(item).unwrap(), item);
        assert_eq!(
            btree.get_index(item).unwrap(),
            btree.lower_bound(item).unwrap()
        );
        assert!(btree.contains(item));
    });
}
