use guillotine::exhaustive_memo;
use guillotine::memo::{hash_counts, pack_key, MemoCache, MemoKey, Solution};
use guillotine::pieces::ElementType;
use std::collections::hash_map::DefaultHasher;
use std::hash::{Hash, Hasher};

fn kind(width: u32, height: u32, count: u32, name: &str) -> ElementType {
    ElementType { width, height, count, name: name.to_string() }
}

#[test]
fn counts_hash_as_a_slice_does() {
    for counts in [&[][..], &[1][..], &[2, 1, 3][..], &[u32::MAX, 0][..]] {
        let mut hasher = DefaultHasher::new();
        counts.hash(&mut hasher);
        assert_eq!(hash_counts(counts), hasher.finish());
        let key = MemoKey::new(3, 4, counts);
        assert_eq!((key.width, key.height, key.counts_hash), (3, 4, hasher.finish()));
    }
}

#[test]
fn keys_are_packed_side_by_side() {
    assert_eq!(pack_key(1, 2, 3), (1 << 96) + (2 << 64) + 3);
    assert_eq!(pack_key(u32::MAX, u32::MAX, u64::MAX), u128::MAX);
}

#[test]
fn the_latest_layout_is_kept() {
    let specs = vec![kind(5, 5, 1, "a")];
    let mut memo = MemoCache::new(&specs, &[1]);
    let key = MemoKey::new(10, 10, &[1]);
    assert_eq!(memo.get(&key), None);
    memo.insert(key, Solution { items: vec![], remaining_counts: vec![1], total_area: 0 });
    memo.insert(key, Solution { items: vec![], remaining_counts: vec![0], total_area: 25 });
    assert_eq!(
        memo.get(&key),
        Some(Solution { items: vec![], remaining_counts: vec![0], total_area: 25 })
    );
    assert_eq!(memo.get(&MemoKey::new(10, 11, &[1])), None);
    assert_eq!(memo.get(&MemoKey::new(10, 10, &[0])), None);
}

#[test]
fn exhaustive_layouts_are_kept_by_counts() {
    let key = |counts: &[u32]| exhaustive_memo::MemoKey {
        width: 10,
        height: 10,
        counts: counts.to_vec(),
    };
    let solution = |area| exhaustive_memo::Solution {
        items: vec![],
        remaining_counts: vec![0],
        total_area: area,
    };
    let mut memo = exhaustive_memo::MemoCache::new();
    assert_eq!(memo.get(&key(&[1])), None);
    memo.insert(key(&[1]), solution(1));
    memo.insert(key(&[2]), solution(2));
    memo.insert(key(&[1]), solution(3));
    assert_eq!(memo.get(&key(&[1])), Some(solution(3)));
    assert_eq!(memo.get(&key(&[2])), Some(solution(2)));
    assert_eq!(memo.get(&key(&[1, 0])), None);
}
