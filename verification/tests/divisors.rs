use pixel_scale::common_divisors::{find_common_divisors, gcd};

#[test]
fn common_divisors() {
    let test_cases: [(u32, u32, Vec<u32>); 23] = [
        (1, 1, vec![1]),
        (100, 10, vec![1, 2, 5, 10]),
        (1000, 250, vec![1, 2, 5, 10, 25, 50, 125, 250]),
        (101, 103, vec![1]),
        (12, 18, vec![1, 2, 3, 6]),
        (123456, 789012, vec![1, 2, 3, 4, 6, 12]),
        (140, 90, vec![1, 2, 5, 10]),
        (1402, 1402, vec![1, 2, 701, 1402]),
        (144, 12, vec![1, 2, 3, 4, 6, 12]),
        (15, 25, vec![1, 5]),
        (21, 14, vec![1, 7]),
        (4234, 523, vec![1]),
        (48, 180, vec![1, 2, 3, 4, 6, 12]),
        (56, 98, vec![1, 2, 7, 14]),
        (60, 48, vec![1, 2, 3, 4, 6, 12]),
        (666, 999, vec![1, 3, 9, 37, 111, 333]),
        (6855, 9445, vec![1, 5]),
        (7, 13, vec![1]),
        (81, 27, vec![1, 3, 9, 27]),
        (84720, 74832, vec![1, 2, 3, 4, 6, 8, 12, 16, 24, 48]),
        (849273, 42837, vec![1, 3, 131, 393]),
        (9, 28, vec![1]),
        (94238, 162374, vec![1, 2]),
    ];

    for (a, b, expected) in test_cases.iter() {
        let result = find_common_divisors(*a, *b);
        assert_eq!(result, *expected, "a: {}, b: {}", a, b);
    }
}

fn classical_euclid(mut a: u32, mut b: u32) -> u32 {
    while b != 0 {
        let t = a % b;
        a = b;
        b = t;
    }
    a
}

#[test]
fn gcd_matches_classical_euclid() {
    let pairs: [(u32, u32); 12] = [
        (1, 1),
        (100, 10),
        (1000, 250),
        (101, 103),
        (12, 18),
        (123456, 789012),
        (84720, 74832),
        (7, 13),
        (1402, 1402),
        (6855, 9445),
        (4294967295, 4294901760),
        (2147483648, 65536),
    ];
    for (a, b) in pairs.iter() {
        assert_eq!(gcd(*a, *b), classical_euclid(*a, *b), "a: {}, b: {}", a, b);
    }
}

#[test]
fn gcd_of_equal_values_and_one() {
    for a in [1u32, 2, 3, 17, 100, 4294967295] {
        assert_eq!(gcd(a, a), a);
        assert_eq!(gcd(a, 1), 1);
        assert_eq!(gcd(1, a), 1);
    }
}

#[test]
fn divisor_list_divides_both_and_is_ascending() {
    let pairs: [(u32, u32); 6] = [(100, 10), (84720, 74832), (12, 18), (7, 13), (1, 1), (666, 999)];
    for (a, b) in pairs.iter() {
        let list = find_common_divisors(*a, *b);
        assert!(!list.is_empty());
        for d in list.iter() {
            assert!(a % d == 0, "{} does not divide {}", d, a);
            assert!(b % d == 0, "{} does not divide {}", d, b);
        }
        for w in list.windows(2) {
            assert!(w[0] < w[1], "not strictly ascending: {} then {}", w[0], w[1]);
        }
        assert_eq!(*list.last().unwrap(), classical_euclid(*a, *b));
    }
}

#[test]
fn literal_divisor_cases() {
    assert_eq!(find_common_divisors(100, 10), vec![1, 2, 5, 10]);
    assert_eq!(find_common_divisors(1, 1), vec![1]);
    let list = find_common_divisors(84720, 74832);
    assert_eq!(*list.last().unwrap(), 48);
}
