use push_swap::sort_small::permutation_id;

fn permutations(n: usize) -> Vec<Vec<i32>> {
    fn go(k: usize, a: &mut Vec<i32>, out: &mut Vec<Vec<i32>>) {
        if k <= 1 {
            out.push(a.clone());
            return;
        }
        for i in 0..k {
            go(k - 1, a, out);
            if k % 2 == 0 {
                a.swap(i, k - 1);
            } else {
                a.swap(0, k - 1);
            }
        }
    }
    let mut a: Vec<i32> = (0..n as i32).collect();
    let mut out = Vec::new();
    go(n, &mut a, &mut out);
    out
}

fn factorial(n: usize) -> usize {
    (1..=n).product()
}

/// The worked example: slice [3,1,5] has Lehmer digits (1, 0), so its id is
/// 1*2! + 0*1! = 2, and one swap of the front two sorts it.
#[test]
fn example_slice_gets_id_two() {
    assert_eq!(permutation_id(&[3, 1, 5]), 2);
}

#[test]
fn ascending_gets_id_zero_descending_the_largest() {
    assert_eq!(permutation_id(&[1, 2, 3]), 0);
    assert_eq!(permutation_id(&[3, 2, 1]), 5);
    assert_eq!(permutation_id(&[10, 20]), 0);
    assert_eq!(permutation_id(&[20, 10]), 1);
    assert_eq!(permutation_id(&[]), 0);
    assert_eq!(permutation_id(&[7]), 0);
}

/// The id is a bijection onto [0, n!): over all n! orderings every id in the
/// range appears exactly once.
#[test]
fn ids_are_a_bijection() {
    for n in 0..=5usize {
        let mut seen = vec![false; factorial(n)];
        for p in permutations(n) {
            let id = permutation_id(&p);
            assert!(id < factorial(n));
            assert!(!seen[id], "id {} repeated for n={}", id, n);
            seen[id] = true;
        }
        assert!(seen.iter().all(|&b| b));
    }
}

/// The id depends only on the relative ordering, not the values.
#[test]
fn id_depends_on_relative_order_only() {
    assert_eq!(permutation_id(&[3, 1, 5]), permutation_id(&[100, -7, 2000]));
    assert_eq!(permutation_id(&[2, 1, 0]), permutation_id(&[90, 50, 10]));
}
