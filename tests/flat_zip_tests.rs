use flat_zip::{FlatZip, FlatZipExt, Group, Groups};
use std::collections::BTreeMap;

fn drain_front<K: Copy, V>(mut iter: FlatZip<K, V>) -> Vec<(K, V)> {
    let mut out = Vec::new();
    while let Some(pair) = iter.next() {
        out.push(pair);
    }
    out
}

fn drain_back<K: Copy, V>(mut iter: FlatZip<K, V>) -> Vec<(K, V)> {
    let mut out = Vec::new();
    while let Some(pair) = iter.next_back() {
        out.push(pair);
    }
    out
}

fn jagged() -> Vec<(usize, Vec<&'static str>)> {
    vec![
        vec!["zero", "", "0"],
        vec![],
        vec!["II", "two"],
        vec!["three", "three", "three"],
        vec![],
        vec!["55555"],
        vec!["6"],
        vec!["seven"; 2],
        vec![],
        vec![],
    ]
    .into_iter()
    .enumerate()
    .collect()
}

#[test]
fn test_enumerated() {
    let jagged_vec = vec![
        vec!["zero", "", "0"],
        vec![],
        vec!["II", "two"],
        vec!["three", "three", "three"],
        vec![],
        vec!["55555"],
        vec!["6"],
        vec!["seven"; 2],
        vec![],
        vec![],
    ];

    let mut iter = jagged_vec
        .into_iter()
        .enumerate()
        .collect::<Vec<_>>()
        .flat_zip();

    assert_eq!(iter.next(), Some((0, "zero")));
    assert_eq!(iter.next(), Some((0, "")));
    assert_eq!(iter.next(), Some((0, "0")));

    assert_eq!(iter.next(), Some((2, "II")));
    assert_eq!(iter.next(), Some((2, "two")));

    assert_eq!(iter.next(), Some((3, "three")));
    assert_eq!(iter.next(), Some((3, "three")));
    assert_eq!(iter.next(), Some((3, "three")));

    assert_eq!(iter.next(), Some((5, "55555")));

    assert_eq!(iter.next(), Some((6, "6")));

    assert_eq!(iter.next(), Some((7, "seven")));
    assert_eq!(iter.next(), Some((7, "seven")));

    assert_eq!(iter.next(), None);
}

#[test]
fn test_multimap() {
    let mut map = BTreeMap::new();
    map.insert(3, vec!["three", "3", "III"]);
    map.insert(7, vec!["7", "seven", "VII"]);
    map.insert(9, vec![]);
    map.insert(8, vec!["eight", "8"]);

    let mut iter = map.into_iter().collect::<Vec<_>>().flat_zip();

    assert_eq!(iter.next(), Some((3, "three")));
    assert_eq!(iter.next(), Some((3, "3")));
    assert_eq!(iter.next(), Some((3, "III")));

    assert_eq!(iter.next(), Some((7, "7")));
    assert_eq!(iter.next(), Some((7, "seven")));
    assert_eq!(iter.next(), Some((7, "VII")));

    assert_eq!(iter.next(), Some((8, "eight")));
    assert_eq!(iter.next(), Some((8, "8")));

    assert_eq!(iter.next(), None);
}

#[test]
fn three_groups_drain_forward() {
    let source = vec![(0, vec!["zero", "", "0"]), (1, vec![]), (2, vec!["II", "two"])];
    let mut iter = FlatZip::new(source);
    assert_eq!(iter.next(), Some((0, "zero")));
    assert_eq!(iter.next(), Some((0, "")));
    assert_eq!(iter.next(), Some((0, "0")));
    assert_eq!(iter.next(), Some((2, "II")));
    assert_eq!(iter.next(), Some((2, "two")));
    assert_eq!(iter.next(), None);
    assert_eq!(iter.next(), None);
}

fn ordered_map() -> Vec<(u32, Vec<&'static str>)> {
    let mut map = BTreeMap::new();
    map.insert(3, vec!["three", "3"]);
    map.insert(5, vec![]);
    map.insert(8, vec!["eight"]);
    map.into_iter().collect()
}

#[test]
fn ordered_map_drain_count_last() {
    assert_eq!(
        drain_front(ordered_map().flat_zip()),
        vec![(3, "three"), (3, "3"), (8, "eight")]
    );
    assert_eq!(ordered_map().flat_zip().count(), 3);
    assert_eq!(ordered_map().flat_zip().last(), Some((8, "eight")));
}

#[test]
fn back_drain_is_reverse_of_front_drain() {
    let front = drain_front(jagged().flat_zip());
    let mut back = drain_back(jagged().flat_zip());
    assert_eq!(back.len(), 12);
    assert_eq!(back[0], (7, "seven"));
    assert_eq!(back[11], (0, "zero"));
    back.reverse();
    assert_eq!(back, front);
}

#[test]
fn interleaved_pulls_give_every_pair_once() {
    let full = drain_front(jagged().flat_zip());
    let patterns: Vec<Vec<bool>> = vec![
        vec![true, false],
        vec![false, false, true],
        vec![true, true, true, false],
        vec![false, true, false, true, true, false, false],
    ];
    for pattern in patterns {
        let mut iter = jagged().flat_zip();
        let mut fronts = Vec::new();
        let mut backs = Vec::new();
        let mut i = 0;
        loop {
            let from_front = pattern[i % pattern.len()];
            i += 1;
            let pulled = if from_front { iter.next() } else { iter.next_back() };
            match pulled {
                Some(pair) if from_front => fronts.push(pair),
                Some(pair) => backs.push(pair),
                None => break,
            }
        }
        assert_eq!(iter.next(), None);
        assert_eq!(iter.next_back(), None);
        backs.reverse();
        fronts.extend(backs);
        assert_eq!(fronts, full);
    }
}

#[test]
fn interleaved_pulls_within_one_group() {
    let mut iter = vec![(1, vec!['a', 'b', 'c'])].flat_zip();
    assert_eq!(iter.next(), Some((1, 'a')));
    assert_eq!(iter.next_back(), Some((1, 'c')));
    assert_eq!(iter.next(), Some((1, 'b')));
    assert_eq!(iter.next_back(), None);
    assert_eq!(iter.next(), None);
}

#[test]
fn fold_matches_forward_drain() {
    let step = |acc: String, (k, v): (usize, &str)| format!("{}[{}:{}]", acc, k, v);
    let folded = jagged().flat_zip().fold(String::from(">"), step);
    let by_hand = drain_front(jagged().flat_zip())
        .into_iter()
        .fold(String::from(">"), step);
    assert_eq!(folded, by_hand);
    assert_eq!(
        FlatZip::new(vec![(0, vec!["zero", "", "0"]), (1, vec![]), (2, vec!["II", "two"])])
            .fold(String::new(), step),
        "[0:zero][0:][0:0][2:II][2:two]"
    );
}

#[test]
fn fold_after_partial_pulls_from_both_ends() {
    let mut iter = jagged().flat_zip();
    assert_eq!(iter.next(), Some((0, "zero")));
    assert_eq!(iter.next_back(), Some((7, "seven")));
    let rest = iter.fold(Vec::new(), |mut acc: Vec<(usize, &str)>, pair| {
        acc.push(pair);
        acc
    });
    let full = drain_front(jagged().flat_zip());
    assert_eq!(rest, full[1..11].to_vec());
}

#[test]
fn non_associative_fold() {
    let source = vec![(1u64, vec![2u64, 3]), (2, vec![]), (3, vec![5])];
    let step = |acc: u64, (k, v): (u64, u64)| acc * 10 + k * v;
    assert_eq!(source.clone().flat_zip().fold(0, step), 2 * 100 + 3 * 10 + 15);
    assert_eq!(source.flat_zip().rfold(0, step), 15 * 100 + 3 * 10 + 2);
}

#[test]
fn rfold_matches_backward_drain() {
    let step = |acc: String, (k, v): (usize, &str)| format!("{}{}{}", acc, k, v);
    let mut iter = jagged().flat_zip();
    assert_eq!(iter.next_back(), Some((7, "seven")));
    assert_eq!(iter.next(), Some((0, "zero")));
    let folded = iter.rfold(String::new(), step);
    assert_eq!(folded, "7seven665555553three3three3three2two2II000");
}

#[test]
fn count_and_last_match_forward_drain() {
    assert_eq!(jagged().flat_zip().count(), 12);
    assert_eq!(jagged().flat_zip().last(), Some((7, "seven")));
    let mut iter = jagged().flat_zip();
    iter.next();
    iter.next_back();
    iter.next_back();
    assert_eq!(iter.count(), 9);
    let mut iter = jagged().flat_zip();
    iter.next_back();
    iter.next_back();
    assert_eq!(iter.last(), Some((6, "6")));
}

#[test]
fn empty_sources_give_nothing() {
    let none: Vec<(u8, Vec<char>)> = Vec::new();
    assert_eq!(none.clone().flat_zip().next(), None);
    assert_eq!(none.clone().flat_zip().next_back(), None);
    assert_eq!(none.clone().flat_zip().count(), 0);
    assert_eq!(none.clone().flat_zip().last(), None);
    assert_eq!(none.flat_zip().fold(7, |a: i32, _| a + 1), 7);

    let all_empty: Vec<(u8, Vec<char>)> = vec![(1, vec![]), (2, vec![]), (3, vec![])];
    assert_eq!(all_empty.clone().flat_zip().next(), None);
    assert_eq!(all_empty.clone().flat_zip().next_back(), None);
    assert_eq!(all_empty.clone().flat_zip().count(), 0);
    assert_eq!(all_empty.flat_zip().last(), None);
}

#[test]
fn empty_groups_are_skipped() {
    let with_empty = vec![(1, vec![]), (2, vec!['x']), (3, vec![]), (4, vec![]), (5, vec!['y'])];
    let without_empty = vec![(2, vec!['x']), (5, vec!['y'])];
    assert_eq!(drain_front(with_empty.clone().flat_zip()), vec![(2, 'x'), (5, 'y')]);
    assert_eq!(
        drain_front(with_empty.flat_zip()),
        drain_front(without_empty.flat_zip())
    );
}

#[test]
fn group_pulls_from_both_ends() {
    let mut group = Group::new('k', vec![1, 2, 3, 4, 5]);
    assert_eq!(group.len(), 5);
    assert_eq!(group.size_hint(), (5, Some(5)));
    assert_eq!(group.next(), Some(('k', 1)));
    assert_eq!(group.next_back(), Some(('k', 5)));
    assert_eq!(group.len(), 3);
    assert_eq!(group.nth(1), Some(('k', 3)));
    assert_eq!(group.next(), Some(('k', 4)));
    assert_eq!(group.next(), None);
    assert_eq!(group.next_back(), None);
}

#[test]
fn group_nth_past_end_empties_it() {
    let mut group = Group::from_pair(('k', vec![1, 2, 3]));
    assert_eq!(group.nth(3), None);
    assert_eq!(group.len(), 0);
    let mut group = Group::new('k', vec![1, 2, 3, 4]);
    assert_eq!(group.nth_back(1), Some(('k', 3)));
    assert_eq!(group.len(), 2);
    assert_eq!(group.nth_back(5), None);
    assert_eq!(group.len(), 0);
}

#[test]
fn group_last_and_folds() {
    assert_eq!(Group::new(9, vec!['a', 'b']).last(), Some((9, 'b')));
    assert_eq!(Group::new(9, Vec::<char>::new()).last(), None);
    let step = |acc: String, (k, v): (u8, char)| format!("{}{}{}", acc, k, v);
    assert_eq!(Group::new(4, vec!['a', 'b', 'c']).fold(String::new(), &step), "4a4b4c");
    assert_eq!(Group::new(4, vec!['a', 'b', 'c']).rfold(String::new(), &step), "4c4b4a");
}

#[test]
fn group_find_from_each_end() {
    let mut group = Group::new(2, vec![1, 4, 6, 9, 8]);
    assert_eq!(group.find(|p: &(i32, i32)| p.1 % 2 == 0), Some((2, 4)));
    assert_eq!(group.len(), 3);
    assert_eq!(group.rfind(|p: &(i32, i32)| p.1 > 5 && p.1 % 2 == 1), Some((2, 9)));
    assert_eq!(group.len(), 1);
    assert_eq!(group.next(), Some((2, 6)));

    let mut group = Group::new(2, vec![1, 3, 5]);
    assert_eq!(group.find(|p: &(i32, i32)| p.1 > 10), None);
    assert_eq!(group.len(), 0);
    let mut group = Group::new(2, vec![1, 3, 5]);
    assert_eq!(group.rfind(|p: &(i32, i32)| p.1 < 2), Some((2, 1)));
    assert_eq!(group.len(), 0);
}

#[test]
fn groups_hand_out_groups() {
    let source = vec![(1, vec!['a']), (2, vec![]), (3, vec!['b', 'c']), (4, vec!['d'])];
    let mut groups = Groups::new(source.clone());
    assert_eq!(groups.len(), 4);
    assert_eq!(groups.size_hint(), (4, Some(4)));
    let mut first = groups.next().unwrap();
    assert_eq!(first.next(), Some((1, 'a')));
    let mut last = groups.next_back().unwrap();
    assert_eq!(last.next(), Some((4, 'd')));
    assert_eq!(groups.len(), 2);
    let mut third = groups.nth(1).unwrap();
    assert_eq!(third.next_back(), Some((3, 'c')));
    assert!(groups.next().is_none());

    let mut groups = Groups::new(source.clone());
    let mut second = groups.nth_back(2).unwrap();
    assert_eq!(second.len(), 0);
    assert_eq!(second.next(), None);
    assert_eq!(groups.len(), 1);
    let mut only = Groups::new(source).last().unwrap();
    assert_eq!(only.next(), Some((4, 'd')));
}

#[test]
fn groups_fold_in_each_direction() {
    let source = vec![(1, vec!['a']), (2, vec![]), (3, vec!['b', 'c'])];
    let keys = |mut acc: Vec<(i32, usize)>, g: Group<i32, char>| {
        let n = g.len();
        let key = match g.last() {
            Some((k, _)) => k,
            None => -1,
        };
        acc.push((key, n));
        acc
    };
    assert_eq!(
        Groups::new(source.clone()).fold(Vec::new(), &keys),
        vec![(1, 1), (-1, 0), (3, 2)]
    );
    assert_eq!(
        Groups::new(source).rfold(Vec::new(), &keys),
        vec![(3, 2), (-1, 0), (1, 1)]
    );
}
