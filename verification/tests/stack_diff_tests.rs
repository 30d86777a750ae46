use wminspect::stack_diff::CachedStackDiff;

#[test]
fn test_empty_diff() {
    let mut diff_calc = CachedStackDiff::new();
    let stack = vec![1, 2, 3];
    let diff = diff_calc.compute_diff(&stack);

    assert_eq!(diff.unchanged, stack);
    assert!(diff.added.is_empty());
    assert!(diff.removed.is_empty());
    assert!(diff.moved.is_empty());
}

#[test]
fn test_added_windows() {
    let mut diff_calc = CachedStackDiff::new();
    let initial_stack = vec![1, 2, 3];
    let _ = diff_calc.compute_diff(&initial_stack);

    let new_stack = vec![1, 2, 3, 4, 5];
    let diff = diff_calc.compute_diff(&new_stack);

    assert_eq!(diff.added, vec![4, 5]);
    assert_eq!(diff.unchanged, vec![1, 2, 3]);
    assert!(diff.removed.is_empty());
    assert!(diff.moved.is_empty());
}

#[test]
fn test_removed_windows() {
    let mut diff_calc = CachedStackDiff::new();
    let initial_stack = vec![1, 2, 3, 4, 5];
    let _ = diff_calc.compute_diff(&initial_stack);

    let new_stack = vec![1, 3, 5];
    let diff = diff_calc.compute_diff(&new_stack);

    assert_eq!(diff.removed, vec![2, 4]);
    assert_eq!(diff.unchanged, vec![1]); // Only window 1 stays in same position (0)
    assert!(diff.added.is_empty());
    // Windows 3 and 5 moved positions: 3 from pos 2 to 1, 5 from pos 4 to 2
    assert_eq!(diff.moved.len(), 2);
    assert!(diff.moved.contains(&(3, 2, 1)));
    assert!(diff.moved.contains(&(5, 4, 2)));
}

#[test]
fn test_moved_windows() {
    let mut diff_calc = CachedStackDiff::new();
    let initial_stack = vec![1, 2, 3, 4];
    let _ = diff_calc.compute_diff(&initial_stack);

    let new_stack = vec![4, 2, 1, 3];
    let diff = diff_calc.compute_diff(&new_stack);

    assert_eq!(diff.moved.len(), 3);
    assert!(diff.moved.contains(&(4, 3, 0)));
    assert!(diff.moved.contains(&(1, 0, 2)));
    assert!(diff.moved.contains(&(3, 2, 3)));
    assert_eq!(diff.unchanged, vec![2]);
}

#[test]
fn test_cache_hit() {
    let mut diff_calc = CachedStackDiff::new();
    let stack = vec![1, 2, 3];

    // First computation
    let diff1 = diff_calc.compute_diff(&stack);

    // Second computation with same stack should hit cache
    let diff2 = diff_calc.compute_diff(&stack);

    assert_eq!(diff1, diff2);
    assert_eq!(diff_calc.cache_stats().1, 1); // One cached result
}

#[test]
fn test_shrunk_stack() {
    // After previous stack [1,2,3,4,5], querying [1,2,3] removes the tail
    // and leaves the shared prefix unchanged.
    let mut diff_calc = CachedStackDiff::new();
    let _ = diff_calc.compute_diff(&vec![1, 2, 3, 4, 5]);
    let diff = diff_calc.compute_diff(&vec![1, 2, 3]);
    assert_eq!(diff.removed, vec![4, 5]);
    assert!(diff.added.is_empty());
    assert_eq!(diff.unchanged, vec![1, 2, 3]);
    assert!(diff.moved.is_empty());
}

#[test]
fn test_permuted_stack() {
    // After previous stack [1,2,3,4], querying [4,2,1,3] reports exactly the
    // three position changes and one unchanged window.
    let mut diff_calc = CachedStackDiff::new();
    let _ = diff_calc.compute_diff(&vec![1, 2, 3, 4]);
    let diff = diff_calc.compute_diff(&vec![4, 2, 1, 3]);
    assert_eq!(diff.moved.len(), 3);
    assert!(diff.moved.contains(&(4, 3, 0)));
    assert!(diff.moved.contains(&(1, 0, 2)));
    assert!(diff.moved.contains(&(3, 2, 3)));
    assert_eq!(diff.unchanged, vec![2]);
    assert!(diff.added.is_empty());
    assert!(diff.removed.is_empty());
}

#[test]
fn test_clear_resets_state() {
    let mut diff_calc = CachedStackDiff::new();
    let _ = diff_calc.compute_diff(&vec![7, 8]);
    diff_calc.clear();
    assert_eq!(diff_calc.cache_stats(), (0, 0));
    // After a clear the next query counts as the first again.
    let diff = diff_calc.compute_diff(&vec![9, 7]);
    assert_eq!(diff.unchanged, vec![9, 7]);
    assert!(diff.removed.is_empty());
}
