use huffman::permute::PermuteIter;
use std::collections::HashSet;

fn factorial(n: usize) -> usize {
    if n < 2 {
        1
    } else {
        n * factorial(n - 1)
    }
}

fn collect_all<T: Copy>(mut iter: PermuteIter<T>) -> Vec<Vec<T>> {
    let mut all = vec![];
    while let Some(permutation) = iter.next() {
        all.push(permutation);
    }
    all
}

#[test]
fn test_zero() {
    let iter = PermuteIter::<i32>::new(vec![]);
    assert_eq!(iter.len(), 1);
    assert_eq!(collect_all(iter), vec![vec![]]);
}

#[test]
fn test_one() {
    let iter = PermuteIter::new(vec![1]);
    assert_eq!(iter.len(), 1);
    assert_eq!(collect_all(iter), vec![vec![1]]);
}

#[test]
fn permute_test_small() {
    let iter = PermuteIter::new(vec![1, 2, 3]);
    assert_eq!(iter.len(), 6);
    assert_eq!(
        collect_all(iter),
        vec![
            vec![1, 2, 3],
            vec![1, 3, 2],
            vec![2, 1, 3],
            vec![2, 3, 1],
            vec![3, 2, 1],
            vec![3, 1, 2],
        ]
    );
}

#[test]
fn permute_test_large() {
    let items: Vec<_> = (0..10).collect();
    let iter = PermuteIter::new(items.clone());
    assert_eq!(iter.len(), factorial(items.len()));
    let permutations: HashSet<_> = collect_all(iter).into_iter().collect();
    assert_eq!(permutations.len(), factorial(items.len()));
    for mut permutation in permutations {
        permutation.sort_unstable();
        assert_eq!(permutation, items);
    }
}

#[test]
fn test_yields_rearrangements() {
    // Every yielded vector holds exactly the elements given at
    // construction.
    let mut iter = PermuteIter::new(vec![4, 4, 7, 9]);
    while let Some(mut permutation) = iter.next() {
        permutation.sort_unstable();
        assert_eq!(permutation, vec![4, 4, 7, 9]);
    }
}
