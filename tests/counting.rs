use potz1000::codec::{from_value, to_value};
use potz1000::counting::{
    bit_at, digit_numbers, digit_numbers_no_zero, fixed_pop_bitvalues, pow_usize,
    ZeroPatternNumbers,
};

fn factorial(n: usize) -> usize {
    if n == 0 {
        1
    } else {
        n * factorial(n - 1)
    }
}

fn binomial_coefficient(n: usize, k: usize) -> usize {
    if k > n {
        0
    } else {
        factorial(n) / (factorial(k) * factorial(n - k))
    }
}

// checks whether the number of boards that digit_numbers yields
// has the value it theoretically should have
#[test]
fn test_digit_numbers_cardinality() {
    const LEN: usize = 5;
    const BASE: usize = 7;

    for num_zeros in 0..=LEN {
        let cardinality = digit_numbers(LEN, BASE, num_zeros).len();
        let expected =
            binomial_coefficient(LEN, num_zeros) * (BASE - 1).pow((LEN - num_zeros) as u32);
        assert_eq!(cardinality, expected)
    }
}

// check whether all cells of the table are hit exactly once
#[test]
fn test_table_coverage() {
    const LEN: usize = 5;
    const BASE: usize = 7;
    const TABLE_SIZE: usize = BASE.pow(LEN as u32);

    let mut table: Vec<u8> = vec![0; TABLE_SIZE];

    for num_zeros in 0..=LEN {
        for digits in digit_numbers(LEN, BASE, num_zeros) {
            table[to_value(&digits, BASE)] += 1;
        }
    }

    for val in table {
        assert_eq!(val, 1)
    }
}

#[test]
fn cardinality_nine_cells_base_seven() {
    for num_zeros in 0..=9 {
        let boards = digit_numbers(9, 7, num_zeros);
        let expected = binomial_coefficient(9, num_zeros) * 6usize.pow((9 - num_zeros) as u32);
        assert_eq!(boards.len(), expected);
        for b in boards.iter().take(50) {
            assert_eq!(b.iter().filter(|d| **d == 0).count(), num_zeros);
        }
    }
}

#[test]
fn coverage_base_three() {
    let mut table: Vec<u8> = vec![0; 3usize.pow(9)];
    for num_zeros in 0..=9 {
        for digits in digit_numbers(9, 3, num_zeros) {
            assert_eq!(digits.iter().filter(|d| **d == 0).count(), num_zeros);
            table[to_value(&digits, 3)] += 1;
        }
    }
    assert!(table.iter().all(|c| *c == 1));
}

#[test]
fn all_zero_board_is_the_only_board_without_digits() {
    assert_eq!(digit_numbers(4, 5, 4), vec![vec![0u32, 0, 0, 0]]);
}

#[test]
fn bit_at_reads_single_bits() {
    assert_eq!(bit_at(0b1010, 0), 0);
    assert_eq!(bit_at(0b1010, 1), 1);
    assert_eq!(bit_at(0b1010, 3), 1);
    assert_eq!(bit_at(u32::MAX, 31), 1);
}

#[test]
fn subsets_come_in_increasing_order() {
    let mut it = fixed_pop_bitvalues(4, 2, false);
    let mut seen = Vec::new();
    while let Some(v) = it.next() {
        seen.push(v);
    }
    assert_eq!(seen, vec![3, 5, 6, 9, 10, 12]);
}

#[test]
fn subsets_in_flip_mode_are_complemented() {
    let mut it = fixed_pop_bitvalues(3, 3, true);
    assert_eq!(it.next(), Some(!7u32));
    assert_eq!(it.next(), None);
}

#[test]
fn odometer_counts_over_free_positions() {
    let mut it = ZeroPatternNumbers::new(0b101, 3, 3);
    let mut seen = Vec::new();
    while let Some(v) = it.next() {
        seen.push(v);
    }
    assert_eq!(
        seen,
        vec![vec![1, 0, 1], vec![1, 0, 2], vec![2, 0, 1], vec![2, 0, 2]]
    );
}

#[test]
fn boards_without_zeros() {
    assert_eq!(
        digit_numbers_no_zero(2, 3),
        vec![vec![1, 1], vec![1, 2], vec![2, 1], vec![2, 2]]
    );
    assert_eq!(digit_numbers_no_zero(3, 2), vec![vec![1, 1, 1]]);
}

#[test]
fn codec_values() {
    assert_eq!(to_value(&[1, 2, 3], 7), 66);
    assert_eq!(to_value(&[6, 6, 6, 6, 6, 6, 6, 6, 6], 7), 40353606);
    assert_eq!(to_value(&[0, 0, 0], 7), 0);
    assert_eq!(from_value(66, 3, 7), vec![1, 2, 3]);
    assert_eq!(pow_usize(7, 9), 40353607);
}

#[test]
fn codec_round_trip() {
    for v in 0..7usize.pow(4) {
        let digits = from_value(v, 4, 7);
        assert_eq!(to_value(&digits, 7), v);
    }
    for digits in digit_numbers(4, 7, 2) {
        assert_eq!(from_value(to_value(&digits, 7), 4, 7), digits);
    }
}
