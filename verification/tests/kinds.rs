use guillotine::kinds::{counts_of, sort_by_difficulty, sort_by_size};
use guillotine::pieces::ElementType;

fn kind(width: u32, height: u32, count: u32, name: &str) -> ElementType {
    ElementType { width, height, count, name: name.to_string() }
}

fn names(specs: &[ElementType]) -> Vec<String> {
    specs.iter().map(|s| s.name.clone()).collect()
}

#[test]
fn large_kinds_come_first() {
    let elements =
        vec![kind(2, 3, 1, "a"), kind(4, 4, 2, "b"), kind(6, 1, 3, "c"), kind(2, 8, 4, "d")];
    assert_eq!(names(&sort_by_size(&elements)), ["b", "d", "a", "c"]);
    assert_eq!(counts_of(&sort_by_size(&elements)), vec![2, 4, 1, 3]);
}

#[test]
fn odd_shapes_come_first_among_equals() {
    let elements =
        vec![kind(2, 3, 1, "a"), kind(4, 4, 2, "b"), kind(6, 1, 3, "c"), kind(2, 8, 4, "d")];
    let specs = sort_by_difficulty(&elements, &[15, 10, 60, 40]);
    assert_eq!(names(&specs), ["d", "b", "c", "a"]);
    let specs = sort_by_difficulty(&elements, &[0, 0, 0, 0]);
    assert_eq!(names(&specs), ["b", "d", "a", "c"]);
}
