use huffman::diff::{apply_patch, diff, diff_len, DiffElement};
use huffman::diff::DiffElement::{Change, Same};

fn to_lines(lines: &str) -> Vec<&str> {
    lines.split('\n').collect()
}

fn diff_brute<T: PartialEq + Copy>(a: &[T], b: &[T]) -> Vec<DiffElement<T>> {
    if a.is_empty() {
        if b.is_empty() {
            vec![]
        } else {
            vec![Change(0, b.to_vec())]
        }
    } else if b.is_empty() {
        vec![Change(a.len(), vec![])]
    } else if a[0] == b[0] {
        let mut diff_rest = diff_brute(&a[1..], &b[1..]);
        match diff_rest.get_mut(0) {
            Some(Same(ref mut count)) => *count += 1,
            _ => diff_rest.insert(0, Same(1)),
        }
        diff_rest
    } else {
        let mut diff_rest_left = diff_brute(&a[1..], b);
        let mut diff_rest_right = diff_brute(a, &b[1..]);
        if diff_len(&diff_rest_left) < diff_len(&diff_rest_right) {
            match diff_rest_left.get_mut(0) {
                Some(Change(ref mut count, _)) => *count += 1,
                _ => diff_rest_left.insert(0, Change(1, vec![])),
            }
            diff_rest_left
        } else {
            match diff_rest_right.get_mut(0) {
                Some(Change(_, ref mut inserted)) => inserted.insert(0, b[0]),
                _ => diff_rest_right.insert(0, Change(0, vec![b[0]])),
            }
            diff_rest_right
        }
    }
}

#[test]
fn test_same() {
    let mut items = vec![];
    assert_eq!(diff(&items, &items), []);
    assert_eq!(diff_brute(&items, &items), []);
    for i in 1..100 {
        items.push(i);
        assert_eq!(diff(&items, &items), [Same(i as usize)]);
        assert_eq!(diff_brute(&items, &items), [Same(i as usize)]);
    }
}

#[test]
fn test_insertions() {
    let initial = vec![1, 2, 3, 4, 5];
    let inserts = [6, 7];
    for insert1 in 0..initial.len() {
        for insert2 in insert1..initial.len() {
            let mut inserted = initial.clone();
            inserted.insert(insert1, inserts[0]);
            inserted.insert(insert2 + 1, inserts[1]);
            let mut target_diff = vec![];
            if insert1 > 0 {
                target_diff.push(Same(insert1))
            }
            if insert1 < insert2 {
                target_diff.push(Change(0, vec![inserts[0]]));
                target_diff.push(Same(insert2 - insert1));
                target_diff.push(Change(0, vec![inserts[1]]));
            } else {
                target_diff.push(Change(0, inserts.to_vec()))
            }
            if insert2 < initial.len() {
                target_diff.push(Same(initial.len() - insert2))
            }
            let diff_result = diff(&initial, &inserted);
            assert_eq!(diff_result, target_diff);
            assert_eq!(diff_result, diff_brute(&initial, &inserted));
        }
    }
}

#[test]
fn test_deletions() {
    let initial = vec![1, 2, 3, 4, 5, 6, 7];
    for delete1 in 0..(initial.len() - 1) {
        for delete2 in delete1..(initial.len() - 1) {
            let mut deleted = initial.clone();
            deleted.remove(delete1);
            deleted.remove(delete2);
            let mut target_diff = vec![];
            if delete1 > 0 {
                target_diff.push(Same(delete1))
            }
            if delete1 < delete2 {
                target_diff.push(Change(1, vec![]));
                target_diff.push(Same(delete2 - delete1));
                target_diff.push(Change(1, vec![]));
            } else {
                target_diff.push(Change(2, vec![]))
            }
            if delete2 < initial.len() - 2 {
                target_diff.push(Same(initial.len() - 2 - delete2))
            }
            let diff_result = diff(&initial, &deleted);
            assert_eq!(diff_result, target_diff);
            assert_eq!(diff_result, diff_brute(&initial, &deleted));
        }
    }
}

#[test]
fn test_examples() {
    // From http://www.xmailserver.org/diff2.pdf
    let a = vec!['a', 'b', 'c', 'a', 'b', 'b', 'a'];
    let b = vec!['c', 'b', 'a', 'b', 'a', 'c'];
    let diff_result = diff(&a, &b);
    assert_eq!(diff_len(&diff_result), 5);
    assert_eq!(apply_patch(&a, &diff_result), b);

    // From https://en.wikipedia.org/wiki/Diff#Algorithm
    let old_side = vec!['a', 'b', 'c', 'd', 'f', 'g', 'h', 'j', 'q', 'z'];
    let new_side = vec!['a', 'b', 'c', 'd', 'e', 'f', 'g', 'i', 'j', 'k', 'r', 'x', 'y', 'z'];
    let diff_result = diff(&old_side, &new_side);
    assert_eq!(
        diff_result,
        [
            Same(4),
            Change(0, vec!['e']),
            Same(2),
            Change(1, vec!['i']),
            Same(1),
            Change(1, vec!['k', 'r', 'x', 'y']),
            Same(1),
        ]
    );

    let original = to_lines(
        "This part of the
document has stayed the
same from version to
version.  It shouldn't
be shown if it doesn't
change.  Otherwise, that
would not be helping to
compress the size of the
changes.

This paragraph contains
text that is outdated.
It will be deleted in the
near future.

It is important to spell
check this dokument. On
the other hand, a
misspelled word isn't
the end of the world.
Nothing in the rest of
this paragraph needs to
be changed. Things can
be added after it.",
    );
    let new = to_lines(
        "This is an important
notice! It should
therefore be located at
the beginning of this
document!

This part of the
document has stayed the
same from version to
version.  It shouldn't
be shown if it doesn't
change.  Otherwise, that
would not be helping to
compress the size of the
changes.

It is important to spell
check this document. On
the other hand, a
misspelled word isn't
the end of the world.
Nothing in the rest of
this paragraph needs to
be changed. Things can
be added after it.

This paragraph contains
important new additions
to this document.",
    );
    let diff_result = diff(&original, &new);
    assert_eq!(
        diff_result,
        [
            Change(
                0,
                to_lines(
                    "This is an important
notice! It should
therefore be located at
the beginning of this
document!
"
                )
            ),
            Same(10),
            Change(5, vec![]),
            Same(1),
            Change(1, vec!["check this document. On"]),
            Same(7),
            Change(
                0,
                to_lines(
                    "
This paragraph contains
important new additions
to this document."
                )
            ),
        ]
    );
}

#[test]
fn test_round_trip_patch() {
    // Applying the emitted patch to the old sequence reproduces the new
    // one, insertions and deletions mixed.
    let a = vec![3, 1, 4, 1, 5, 9, 2, 6];
    let b = vec![3, 4, 1, 1, 5, 9, 9, 6, 5];
    let patch = diff(&a, &b);
    assert_eq!(apply_patch(&a, &patch), b);
}
