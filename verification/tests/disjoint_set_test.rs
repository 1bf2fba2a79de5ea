use rustgo::DisjointSet;

const TEST_SIZE: usize = 15;

#[test]
fn test_empty() {
    let mut ds = DisjointSet::new(TEST_SIZE);
    for i in 0..ds.len() {
        assert_eq!(ds.contains(i), false);
        assert_eq!(ds.find_root(i), None);
        assert_eq!(ds.group_members(i), None);
        assert_eq!(ds.group_size(i), 0);
        assert_eq!(ds.is_connected(i, i), false);
        if i != 0 {
            assert_eq!(ds.is_connected(i - 1, i), false);
        }
    }
    assert!(ds.group_roots().is_empty());
}

#[test]
fn test_insert() {
    let mut ds = DisjointSet::new(TEST_SIZE);
    let half = ds.len() / 2;
    for i in 0..half {
        ds.insert(i);
    }
    for i in 0..half {
        assert_eq!(ds.contains(i), true);
        assert_eq!(ds.find_root(i), Some(i));
        assert_eq!(ds.group_members(i), Some(vec![i]));
        assert_eq!(ds.group_size(i), 1);
        assert_eq!(ds.is_connected(i, i), true);

        assert_eq!(ds.is_connected(i, i + half), false);
    }
    for i in half..half * 2 {
        assert_eq!(ds.contains(i), false);
        assert_eq!(ds.find_root(i), None);
        assert_eq!(ds.group_members(i), None);
        assert_eq!(ds.group_size(i), 0);
        assert_eq!(ds.is_connected(i, i), false);

        assert_eq!(ds.is_connected(i, i - half), false);
    }

    let roots: Vec<usize> = (0..half).collect();
    assert_eq!(ds.group_roots(), roots);
}

#[test]
fn test_connect() {
    let mut ds = DisjointSet::new(TEST_SIZE);
    let half = ds.len() / 2;
    for i in 0..half {
        ds.connect(i, i + half);
    }
    for i in 0..half {
        assert_eq!(ds.contains(i), true);
        assert_eq!(ds.contains(i + half), true);
        assert!(ds.find_root(i).is_some());
        assert_eq!(ds.find_root(i), ds.find_root(i + half));
        assert_eq!(ds.group_members(i), Some(vec![i, i + half]));
        assert_eq!(ds.group_members(i + half), Some(vec![i, i + half]));
        assert_eq!(ds.group_size(i), 2);
        assert_eq!(ds.group_size(i + half), 2);
        assert_eq!(ds.is_connected(i, i), true);
        assert_eq!(ds.is_connected(i, i + half), true);
        assert_eq!(ds.is_connected(i + half, i), true);
        assert_eq!(ds.is_connected(i + half, i + half), true);
    }

    assert_eq!(ds.group_roots().len(), half);
}

#[test]
fn test_delete() {
    let mut ds = DisjointSet::new(TEST_SIZE);
    let half = ds.len() / 2;
    for i in 0..half {
        ds.connect(i, i + half);
    }

    for i in half..half * 2 {
        assert_eq!(ds.delete_group(i), vec![i - half, i]);
    }

    for i in 0..ds.len() {
        assert_eq!(ds.contains(i), false);
        assert_eq!(ds.find_root(i), None);
        assert_eq!(ds.group_members(i), None);
        assert_eq!(ds.group_size(i), 0);
        assert_eq!(ds.is_connected(i, i), false);
        if i != 0 {
            assert_eq!(ds.is_connected(i - 1, i), false);
        }
    }
    assert!(ds.group_roots().is_empty());
}

#[test]
fn test_insert_then_query() {
    // After insert(i): contained, its own root, a singleton group.
    let mut ds = DisjointSet::new(8);
    ds.insert(5);
    assert!(ds.contains(5));
    assert_eq!(ds.find_root(5), Some(5));
    assert_eq!(ds.group_size(5), 1);
    assert_eq!(ds.group_members(5), Some(vec![5]));
    assert_eq!(ds.len(), 1);
    assert!(!ds.is_empty());
    assert_eq!(ds.capacity(), 8);
    // Inserting again changes nothing.
    ds.insert(5);
    assert_eq!(ds.group_size(5), 1);
}

#[test]
fn test_connect_unions_members() {
    // After connect(a, b) the group members are the union of both
    // previous member sets, and everyone else is untouched.
    let mut ds = DisjointSet::new(10);
    ds.connect(0, 1);
    ds.connect(2, 3);
    ds.insert(7);
    ds.connect(1, 3);
    assert!(ds.is_connected(0, 2));
    assert!(ds.is_connected(1, 2));
    assert_eq!(ds.group_members(0), Some(vec![0, 1, 2, 3]));
    assert_eq!(ds.group_size(3), 4);
    assert_eq!(ds.group_members(7), Some(vec![7]));
    assert!(!ds.is_connected(0, 7));
}

#[test]
fn test_delete_leaves_others() {
    let mut ds = DisjointSet::new(10);
    ds.connect(0, 1);
    ds.connect(4, 5);
    let removed = ds.delete_group(1);
    assert_eq!(removed, vec![0, 1]);
    assert!(!ds.contains(0));
    assert!(!ds.contains(1));
    assert_eq!(ds.find_root(0), None);
    assert_eq!(ds.find_root(1), None);
    assert!(ds.is_connected(4, 5));
    assert_eq!(ds.group_members(5), Some(vec![4, 5]));
}

#[test]
fn test_run_path_compression_keeps_state() {
    let mut ds = DisjointSet::new(6);
    ds.connect(0, 1);
    ds.connect(1, 2);
    ds.run_path_compression();
    assert!(ds.is_connected(0, 2));
    assert_eq!(ds.group_members(2), Some(vec![0, 1, 2]));
}
