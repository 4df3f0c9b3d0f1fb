use std::collections::VecDeque;

use seq_merge::{constant_cost1, constant_cost2, merge, Merged};

fn chars(s: &str) -> VecDeque<char> {
    s.chars().collect()
}

fn unit_merge(a: &str, b: &str) -> VecDeque<Merged<char, char>> {
    merge(
        chars(a),
        chars(b),
        |x: &char, y: &char| *x == *y,
        constant_cost2(1),
        constant_cost1(1),
        constant_cost1(1),
    )
}

fn edits(ops: &VecDeque<Merged<char, char>>) -> usize {
    ops.iter().filter(|op| !matches!(op, Merged::Keep(_, _))).count()
}

fn x_side(ops: &VecDeque<Merged<char, char>>) -> String {
    ops.iter()
        .filter_map(|op| match op {
            Merged::Replace(x, _) | Merged::Remove(x) | Merged::Keep(x, _) => Some(*x),
            Merged::Append(_) => None,
        })
        .collect()
}

fn y_side(ops: &VecDeque<Merged<char, char>>) -> String {
    ops.iter()
        .filter_map(|op| match op {
            Merged::Replace(_, y) | Merged::Append(y) | Merged::Keep(_, y) => Some(*y),
            Merged::Remove(_) => None,
        })
        .collect()
}

#[test]
fn it_works() {
    assert_eq!(2 + 2, 4);
}

#[test]
fn kitten_and_sitting() {
    let kitten: VecDeque<_> = vec!['k', 'i', 't', 't', 'e', 'n'].into();
    let sitting: VecDeque<_> = vec!['s', 'i', 't', 't', 'i', 'n', 'g'].into();

    let expected: VecDeque<_> = vec![
        Merged::Replace('k', 's'),
        Merged::Keep('i', 'i'),
        Merged::Keep('t', 't'),
        Merged::Keep('t', 't'),
        Merged::Replace('e', 'i'),
        Merged::Keep('n', 'n'),
        Merged::Append('g'),
    ]
    .into();
    let merged = merge(
        kitten,
        sitting,
        |x, y| *x == *y,
        constant_cost2(1),
        constant_cost1(1),
        constant_cost1(1),
    );

    assert_eq!(expected, merged);
}

#[test]
fn both_empty_gives_empty_script() {
    assert!(unit_merge("", "").is_empty());
}

#[test]
fn empty_left_appends_everything() {
    let merged = merge(
        VecDeque::<u8>::new(),
        chars("abc"),
        |_: &u8, _: &char| true,
        constant_cost2(0),
        constant_cost1(50),
        constant_cost1(0),
    );
    let expected: VecDeque<Merged<u8, char>> =
        vec![Merged::Append('a'), Merged::Append('b'), Merged::Append('c')].into();
    assert_eq!(expected, merged);
}

#[test]
fn empty_right_removes_everything() {
    let merged = merge(
        chars("xyz"),
        VecDeque::<u8>::new(),
        |_: &char, _: &u8| true,
        constant_cost2(0),
        constant_cost1(0),
        constant_cost1(50),
    );
    let expected: VecDeque<Merged<char, u8>> =
        vec![Merged::Remove('x'), Merged::Remove('y'), Merged::Remove('z')].into();
    assert_eq!(expected, merged);
}

#[test]
fn identical_sequences_keep_every_element() {
    let merged = unit_merge("abcab", "abcab");
    let expected: VecDeque<_> = "abcab".chars().map(|c| Merged::Keep(c, c)).collect();
    assert_eq!(expected, merged);
}

#[test]
fn identical_sequences_keep_under_other_costs() {
    let s: VecDeque<u32> = vec![5, 5, 1, 9].into();
    let merged = merge(
        s.clone(),
        s,
        |x: &u32, y: &u32| *x == *y,
        |_: &u32, _: &u32| 0,
        |_: &u32| 0,
        |_: &u32| 0,
    );
    let expected: VecDeque<_> = vec![
        Merged::Keep(5, 5),
        Merged::Keep(5, 5),
        Merged::Keep(1, 1),
        Merged::Keep(9, 9),
    ]
    .into();
    assert_eq!(expected, merged);
}

#[test]
fn length_stays_between_max_and_sum() {
    for (a, b) in [("kitten", "sitting"), ("abc", "xyz"), ("a", "abcdef"), ("flaw", "lawn"), ("", "q")] {
        let merged = unit_merge(a, b);
        let (m, n) = (a.len(), b.len());
        assert!(merged.len() >= m.max(n));
        assert!(merged.len() <= m + n);
    }
}

#[test]
fn both_sides_are_conserved() {
    for (a, b) in [("kitten", "sitting"), ("intention", "execution"), ("abc", ""), ("sunday", "saturday")] {
        let merged = unit_merge(a, b);
        assert_eq!(x_side(&merged), a);
        assert_eq!(y_side(&merged), b);
    }
}

#[test]
fn unit_costs_count_levenshtein_distance() {
    assert_eq!(edits(&unit_merge("kitten", "sitting")), 3);
    assert_eq!(edits(&unit_merge("flaw", "lawn")), 2);
    assert_eq!(edits(&unit_merge("intention", "execution")), 5);
    assert_eq!(edits(&unit_merge("sunday", "saturday")), 3);
    assert_eq!(edits(&unit_merge("abc", "abc")), 0);
    assert_eq!(edits(&unit_merge("", "abcd")), 4);
}

#[test]
fn full_tie_prefers_replace() {
    // diagonal 2, left 1 + 1, up 1 + 1
    let merged = merge(
        chars("a"),
        chars("b"),
        |x: &char, y: &char| *x == *y,
        constant_cost2(2),
        constant_cost1(1),
        constant_cost1(1),
    );
    let expected: VecDeque<_> = vec![Merged::Replace('a', 'b')].into();
    assert_eq!(expected, merged);
}

#[test]
fn tie_of_append_and_remove_prefers_append() {
    // diagonal 3, left 1 + 1, up 1 + 1: the last step is an append
    let merged = merge(
        chars("a"),
        chars("b"),
        |x: &char, y: &char| *x == *y,
        constant_cost2(3),
        constant_cost1(1),
        constant_cost1(1),
    );
    let expected: VecDeque<_> = vec![Merged::Remove('a'), Merged::Append('b')].into();
    assert_eq!(expected, merged);
}

#[test]
fn keep_wins_a_tie_with_the_other_candidates() {
    // every operation is free: the diagonal wins and the pair is kept
    let merged = merge(
        chars("ab"),
        chars("ab"),
        |x: &char, y: &char| *x == *y,
        constant_cost2(0),
        constant_cost1(0),
        constant_cost1(0),
    );
    let expected: VecDeque<_> = vec![Merged::Keep('a', 'a'), Merged::Keep('b', 'b')].into();
    assert_eq!(expected, merged);
}

#[test]
fn element_dependent_costs_use_running_sums() {
    // appending costs the digit's value; removing is cheap; replacing is dear
    let merged = merge(
        vec![1u32].into(),
        vec![9u32, 1].into(),
        |x: &u32, y: &u32| *x == *y,
        constant_cost2(100),
        |y: &u32| *y,
        |_: &u32| 1,
    );
    let expected: VecDeque<_> = vec![Merged::Append(9), Merged::Keep(1, 1)].into();
    assert_eq!(expected, merged);
}

#[test]
fn running_sum_boundary_is_optimal() {
    // removing "ab" then appending "c" costs 1 + 1 + 1; replacing costs more
    let merged = merge(
        chars("ab"),
        chars("c"),
        |x: &char, y: &char| *x == *y,
        constant_cost2(5),
        constant_cost1(1),
        constant_cost1(1),
    );
    let expected: VecDeque<_> =
        vec![Merged::Remove('a'), Merged::Remove('b'), Merged::Append('c')].into();
    assert_eq!(expected, merged);
}

#[test]
fn custom_sameness_pairs_case_insensitively() {
    let merged = merge(
        chars("AbC"),
        chars("abc"),
        |x: &char, y: &char| x.to_ascii_lowercase() == y.to_ascii_lowercase(),
        constant_cost2(1),
        constant_cost1(1),
        constant_cost1(1),
    );
    let expected: VecDeque<_> =
        vec![Merged::Keep('A', 'a'), Merged::Keep('b', 'b'), Merged::Keep('C', 'c')].into();
    assert_eq!(expected, merged);
}

#[test]
fn large_costs_do_not_overflow() {
    let n = 40;
    let xs: VecDeque<u8> = (0..n).collect();
    let ys: VecDeque<u8> = (100..100 + n).collect();
    let merged = merge(
        xs,
        ys,
        |x: &u8, y: &u8| *x == *y,
        constant_cost2(u32::MAX),
        constant_cost1(u32::MAX),
        constant_cost1(u32::MAX),
    );
    assert_eq!(merged.len(), n as usize);
    assert!(merged.iter().all(|op| matches!(op, Merged::Replace(_, _))));
}

#[test]
fn constant_costs_ignore_their_arguments() {
    let one = constant_cost1::<char>(7);
    let two = constant_cost2::<char, u8>(11);
    assert_eq!(one(&'a'), 7);
    assert_eq!(one(&'z'), 7);
    assert_eq!(two(&'a', &3), 11);
    assert_eq!(two(&'q', &200), 11);
}

#[test]
fn merged_equality_is_structural() {
    assert_eq!(Merged::<char, char>::Keep('a', 'b'), Merged::Keep('a', 'b'));
    assert_ne!(Merged::<char, char>::Keep('a', 'b'), Merged::Replace('a', 'b'));
    assert_ne!(Merged::<char, char>::Append('a'), Merged::Remove('a'));
    assert_ne!(Merged::<char, char>::Append('a'), Merged::Append('b'));
    let shown = format!("{:?}", Merged::<char, char>::Replace('k', 's'));
    assert!(shown.contains("Replace"));
    assert!(shown.contains("'k'"));
}
