use aislobsterble::utilities::next_combination;
use aislobsterble::utilities::next_permutation;

#[test]
fn test_next_permutation() {
    let mut permutation = Some(vec![0, 1, 2, 3]);
    let expected_permutations = [
        Some(vec![0, 1, 2, 3]),
        Some(vec![0, 1, 3, 2]),
        Some(vec![0, 2, 1, 3]),
        Some(vec![0, 2, 3, 1]),
        Some(vec![0, 3, 1, 2]),
        Some(vec![0, 3, 2, 1]),
        Some(vec![1, 0, 2, 3]),
        Some(vec![1, 0, 3, 2]),
        Some(vec![1, 2, 0, 3]),
        Some(vec![1, 2, 3, 0]),
        Some(vec![1, 3, 0, 2]),
        Some(vec![1, 3, 2, 0]),
        Some(vec![2, 0, 1, 3]),
        Some(vec![2, 0, 3, 1]),
        Some(vec![2, 1, 0, 3]),
        Some(vec![2, 1, 3, 0]),
        Some(vec![2, 3, 0, 1]),
        Some(vec![2, 3, 1, 0]),
        Some(vec![3, 0, 1, 2]),
        Some(vec![3, 0, 2, 1]),
        Some(vec![3, 1, 0, 2]),
        Some(vec![3, 1, 2, 0]),
        Some(vec![3, 2, 0, 1]),
        Some(vec![3, 2, 1, 0]),
        None,
    ];
    assert_eq!(permutation, expected_permutations[0]);
    for index in 1..25 {
        permutation = next_permutation(permutation.unwrap());
        assert_eq!(permutation, expected_permutations[index]);
    }
}

#[test]
fn test_next_combination() {
    let mut combination = Some(vec![0, 1, 2, 3]);
    let population_size = 6;
    let expected_combinations = [
        Some(vec![0, 1, 2, 3]),
        Some(vec![0, 1, 2, 4]),
        Some(vec![0, 1, 2, 5]),
        Some(vec![0, 1, 3, 4]),
        Some(vec![0, 1, 3, 5]),
        Some(vec![0, 1, 4, 5]),
        Some(vec![0, 2, 3, 4]),
        Some(vec![0, 2, 3, 5]),
        Some(vec![0, 2, 4, 5]),
        Some(vec![0, 3, 4, 5]),
        Some(vec![1, 2, 3, 4]),
        Some(vec![1, 2, 3, 5]),
        Some(vec![1, 2, 4, 5]),
        Some(vec![1, 3, 4, 5]),
        Some(vec![2, 3, 4, 5]),
        None,
    ];
    assert_eq!(combination, expected_combinations[0]);
    for index in 1..16 {
        combination = next_combination(combination.unwrap(), population_size);
        assert_eq!(combination, expected_combinations[index]);
    }
}

#[test]
fn single_element_permutation_is_exhausted() {
    assert_eq!(next_permutation(vec![0]), None);
}

#[test]
fn single_entry_combination_steps_to_exhaustion() {
    let stepped = next_combination(vec![0], 2);
    assert_eq!(stepped, Some(vec![1]));
    assert_eq!(next_combination(vec![1], 2), None);
}
