use polycrc::{bring_down, extend_message, length, DivisionError, DivisionResult};

#[test]
fn crc_ok() {
    // The message 10011010 is x^7 + x^4 + x^3 + x; the agreed divisor is
    // x^3 + x^2 + 1 (1101), of degree 3. The sender appends three zero bits,
    // divides, and subtracts (XORs) the remainder; the receiver's division of
    // what was sent leaves no remainder.
    let raw_message = 0b10011010;
    let extended_message = extend_message(raw_message, 3);
    let divisor: u16 = 0b1101;
    let rem = polycrc::polynomial_long_division(extended_message, divisor)
        .unwrap()
        .remainder;
    let resulting_message = extended_message ^ rem;
    assert_eq!(
        polycrc::polynomial_long_division(resulting_message, divisor)
            .unwrap()
            .remainder,
        0
    );
}

#[test]
fn polynomial_long_division() {
    assert_eq!(
        polycrc::polynomial_long_division(0b10011010000, 0b1101),
        Ok(DivisionResult::new(0b11111001, 0b101))
    );
}

#[test]
fn crc_round_trip_values() {
    let extended = extend_message(0b10011010, 3);
    assert_eq!(extended, 0b10011010000);
    let rem = polycrc::polynomial_long_division(extended, 0b1101).unwrap().remainder;
    assert_eq!(rem, 0b101);
    let sent = extended ^ rem;
    assert_eq!(sent, 0b10011010101);
    let check = polycrc::polynomial_long_division(sent, 0b1101).unwrap();
    assert_eq!(check.remainder, 0);
    assert_eq!(check.quotient, 0b11111001);
}

#[test]
fn crc_detects_a_flipped_bit() {
    let sent: u16 = 0b10011010101;
    let corrupted = sent ^ 0b100000;
    assert_ne!(
        polycrc::polynomial_long_division(corrupted, 0b1101)
            .unwrap()
            .remainder,
        0
    );
}

#[test]
fn division_by_zero_is_refused() {
    assert_eq!(
        polycrc::polynomial_long_division(0b1011, 0),
        Err(DivisionError::ZeroDivisor)
    );
    assert_eq!(
        polycrc::polynomial_long_division(0, 0),
        Err(DivisionError::ZeroDivisor)
    );
}

#[test]
fn division_of_zero() {
    assert_eq!(
        polycrc::polynomial_long_division(0, 0b1101),
        Ok(DivisionResult::new(0, 0))
    );
}

#[test]
fn division_by_larger_divisor_leaves_dividend() {
    assert_eq!(
        polycrc::polynomial_long_division(0b101, 0b1101),
        Ok(DivisionResult::new(0, 0b101))
    );
}

#[test]
fn division_ending_without_subtraction_keeps_remainder() {
    // 11100 = 10 * 1101 + 110 over GF(2); the last step brings down a 0 and
    // does not subtract, and what was brought down is the remainder.
    assert_eq!(
        polycrc::polynomial_long_division(0b11100, 0b1101),
        Ok(DivisionResult::new(0b10, 0b110))
    );
}

#[test]
fn division_by_one() {
    assert_eq!(
        polycrc::polynomial_long_division(0xffff, 1),
        Ok(DivisionResult::new(0xffff, 0))
    );
}

#[test]
fn division_of_full_register() {
    let r = polycrc::polynomial_long_division(0xffff, 0x8005).unwrap();
    assert_eq!(r, DivisionResult::new(1, 0x7ffa));
}

#[test]
fn length_cases() {
    let cases: [(u16, u16); 8] = [
        (0b1, 1),
        (0b10, 2),
        (0b101, 3),
        (0b1010, 4),
        (0b10101, 5),
        (0b101010, 6),
        (0b1010101, 7),
        (0b10101010, 8),
    ];
    for (input, expected) in cases {
        assert_eq!(length(input), expected);
    }
    assert_eq!(length(0b1101), 4);
}

#[test]
fn length_of_zero_is_zero() {
    assert_eq!(length(0), 0);
}

#[test]
fn length_of_powers_of_two() {
    for k in 0..16u16 {
        assert_eq!(length(1u16 << k), k + 1);
        if k >= 1 {
            assert_eq!(length((1u16 << k) - 1), k);
        }
    }
    assert_eq!(length(u16::MAX), 16);
}

#[test]
fn bring_down_cases() {
    let dividend: u16 = 0b1101;
    let cases: [(u16, u16); 4] = [(1, 1), (2, 1), (3, 0), (4, 1)];
    for (index, expected) in cases {
        assert_eq!(bring_down(dividend, index), expected);
    }
}

#[test]
fn bring_down_ends_of_span() {
    for value in [1u16, 2, 0b1101, 0b1010, 0x8000, 0xffff, 0x1234] {
        assert_eq!(bring_down(value, 1), 1);
        assert_eq!(bring_down(value, length(value)), value & 1);
    }
}

#[test]
fn extend_message_cases() {
    let cases: [(u16, u16, u16); 3] = [
        (0b1010, 2, 0b101000),
        (0b10011010, 3, 0b10011010000),
        (0b10101, 4, 0b101010000),
    ];
    for (message, degree, expected) in cases {
        assert_eq!(extend_message(message, degree), expected);
    }
}

#[test]
fn extend_message_is_multiplication() {
    assert_eq!(extend_message(7, 0), 7);
    assert_eq!(extend_message(1, 15), 0x8000);
    assert_eq!(extend_message(0x1ff, 7), 0x1ff * 128);
}
