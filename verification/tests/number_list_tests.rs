use product_of_four::number_list::parse_number_list;

#[test]
fn numbers_divided_by_commas() {
    assert_eq!(parse_number_list(b"2,3,5,7,11"), vec![2, 3, 5, 7, 11]);
    assert_eq!(parse_number_list(b"2"), vec![2]);
    assert_eq!(parse_number_list(b""), Vec::<u64>::new());
}

#[test]
fn numbers_over_several_lines() {
    assert_eq!(parse_number_list(b"2, 3, 5\n7, 11\n13\n"), vec![2, 3, 5, 7, 11, 13]);
    assert_eq!(parse_number_list(b"2,3,\r\n5,7\r\n"), vec![2, 3, 5, 7]);
}

#[test]
fn blanks_around_a_number_are_dropped() {
    assert_eq!(parse_number_list(b"  17\t, \x0b19\x0c ,23  "), vec![17, 19, 23]);
    assert_eq!(parse_number_list(b" \t "), Vec::<u64>::new());
}

#[test]
fn fields_without_a_number_are_passed_over() {
    assert_eq!(parse_number_list(b"2,x,3,,5, ,7,1 1,-3,1.5,0x10,+"), vec![2, 3, 5, 7]);
    assert_eq!(parse_number_list(b",,,"), Vec::<u64>::new());
    assert_eq!(parse_number_list(b"primes: 2,3"), vec![3]);
}

#[test]
fn a_plus_sign_and_leading_zeros_are_accepted() {
    assert_eq!(parse_number_list(b"+7,007,+0,00"), vec![7, 7, 0, 0]);
    assert_eq!(parse_number_list(b"++7,+ 7,7+"), Vec::<u64>::new());
}

#[test]
fn numbers_beyond_sixty_four_bits_are_passed_over() {
    assert_eq!(
        parse_number_list(b"18446744073709551615,18446744073709551616,1"),
        vec![u64::MAX, 1]
    );
    assert_eq!(parse_number_list(b"99999999999999999999999999,4"), vec![4]);
    assert_eq!(parse_number_list(b"18446744073709551620"), Vec::<u64>::new());
}

#[test]
fn reading_agrees_with_the_standard_parser() {
    let text = "2,3 ,5\n 7,abc,11,\n+13, 1 7,19\n";
    let mut expected: Vec<u64> = Vec::new();
    for line in text.lines() {
        for field in line.split(',') {
            if let Ok(number) = field.trim().parse::<u64>() {
                expected.push(number);
            }
        }
    }
    assert_eq!(parse_number_list(text.as_bytes()), expected);
}

#[test]
fn repeated_reading_gives_the_same_numbers() {
    assert_eq!(parse_number_list(b"2,3,5"), parse_number_list(b"2,3,5"));
}
