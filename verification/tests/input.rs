use procon::input::{parse_signed, parse_unsigned, Input};

fn chars(text: &str) -> Vec<char> {
    text.chars().collect()
}

fn fed(lines: &str) -> Input {
    let mut input = Input::new();
    for line in lines.lines() {
        input.feed(&chars(line));
    }
    input
}

#[test]
fn test_io() {
    let input = "10
        1 2 3 4 5 6 7 8 9 10
        10
        20
        30
        40
        50
        abcde fghij
        
        3.14 -1592
        no_empty_line

        5 4
        ";
    let mut input = fed(input);

    let n: usize = parse_unsigned(&input.chars().unwrap()).unwrap();
    assert_eq!(n, 10);

    let mut a: Vec<u64> = Vec::new();
    for _ in 0..n {
        a.push(parse_unsigned(&input.chars().unwrap()).unwrap() as u64);
    }
    assert_eq!(&a, &[1, 2, 3, 4, 5, 6, 7, 8, 9, 10]);

    let mut b: Vec<usize> = Vec::new();
    for _ in 0..5 {
        b.push(parse_unsigned(&input.chars().unwrap()).unwrap());
    }
    assert_eq!(&b, &[10, 20, 30, 40, 50]);

    let s = input.chars().unwrap();
    let t = input.chars().unwrap();
    assert_eq!(&s, &['a', 'b', 'c', 'd', 'e']);
    assert_eq!(&t, &['f', 'g', 'h', 'i', 'j']);

    let f: f64 = input.token().unwrap().parse().unwrap();
    assert_eq!(f, 3.14);

    let neg: i64 = parse_signed(&input.chars().unwrap()).unwrap() as i64;
    assert_eq!(neg, -1592);

    let s = input.token().unwrap();
    assert_eq!(&s, "no_empty_line");

    let x = input.usize1().unwrap();
    assert_eq!(x, 4);

    let y = input.isize1().unwrap();
    assert_eq!(y, 3);

    assert!(!input.has_token());
}

#[test]
fn tokens_come_in_order() {
    let mut input = Input::new();
    assert!(!input.has_token());
    assert_eq!(input.token(), None);
    input.feed(&chars("  ab\tc  "));
    input.feed(&chars(""));
    input.feed(&chars(" \u{3000}\u{a0} "));
    input.feed(&chars("d\u{3000}e\r\n"));
    assert!(input.has_token());
    assert_eq!(input.token(), Some(String::from("ab")));
    assert_eq!(input.chars(), Some(vec!['c']));
    assert_eq!(input.token(), Some(String::from("d")));
    input.feed(&chars("f"));
    assert_eq!(input.token(), Some(String::from("e")));
    assert_eq!(input.token(), Some(String::from("f")));
    assert_eq!(input.token(), None);
    assert_eq!(input.chars(), None);
    assert_eq!(input.usize1(), None);
    assert_eq!(input.isize1(), None);
}

#[test]
fn tokens_are_those_of_the_standard_split() {
    let lines = [
        "",
        " ",
        "a",
        " a",
        "a ",
        "a  b",
        "\ta\u{b}b\u{c}c\u{85}d\u{2028}e\u{1680}f",
        "x\u{200b}y z",
        "1 2 3\n",
    ];
    for line in lines {
        let mut input = Input::new();
        input.feed(&chars(line));
        for word in line.split_whitespace() {
            assert_eq!(input.token(), Some(String::from(word)));
        }
        assert_eq!(input.token(), None);
    }
}

#[test]
fn numbers_are_read_as_the_standard_library_reads_them() {
    let texts = [
        "", "+", "-", "0", "-0", "+0", "007", "+12", "-12", "12a", "a12", "1 2", "1_000", "--1",
        "+-1", "-+1", "١٢", "1.5", "0x10",
        "18446744073709551615",
        "18446744073709551616",
        "+18446744073709551615",
        "9223372036854775807",
        "9223372036854775808",
        "-9223372036854775808",
        "-9223372036854775809",
        "99999999999999999999999999",
        "00000000000000000000000001",
    ];
    for text in texts {
        assert_eq!(parse_unsigned(&chars(text)), text.parse::<usize>().ok());
        assert_eq!(parse_signed(&chars(text)), text.parse::<isize>().ok());
    }
}

#[test]
fn places_are_counted_from_one() {
    let mut input = fed("1 0 -5 x 18446744073709551615 -9223372036854775808 7");
    assert_eq!(input.usize1(), Some(0));
    assert_eq!(input.usize1(), None);
    assert_eq!(input.isize1(), Some(-6));
    assert_eq!(input.isize1(), None);
    assert_eq!(input.usize1(), Some(18446744073709551614));
    assert_eq!(input.isize1(), None);
    assert_eq!(input.isize1(), Some(6));
    assert!(!input.has_token());
}

#[test]
fn values_of_every_kind_are_read() {
    let mut input = fed("255 256 -128 -129 x yz 340282366920938463463374607431768211455
        -170141183460469231731687303715884105728 65535 -32768 4294967295 -2147483648");
    assert_eq!(input.read::<u8>(), Some(255));
    assert_eq!(input.read::<u8>(), None);
    assert_eq!(input.read::<i8>(), Some(-128));
    assert_eq!(input.read::<i8>(), None);
    assert_eq!(input.read::<char>(), Some('x'));
    assert_eq!(input.read::<char>(), None);
    assert_eq!(input.read::<u128>(), Some(u128::MAX));
    assert_eq!(input.read::<i128>(), Some(i128::MIN));
    assert_eq!(input.read::<u16>(), Some(65535));
    assert_eq!(input.read::<i16>(), Some(-32768));
    assert_eq!(input.read::<u32>(), Some(4294967295));
    assert_eq!(input.read::<i32>(), Some(-2147483648));
    assert_eq!(input.read::<String>(), None);
    assert_eq!(input.read::<u64>(), None);
}

#[test]
fn tuples_and_lists_are_read_in_order() {
    let mut input = fed("3
        1 -1 a
        2 -2 b
        3 -3 c
        7 8 9 10");
    let n: usize = input.read().unwrap();
    let rows: Vec<(usize, isize, String)> = input.vec(n).unwrap();
    assert_eq!(
        rows,
        vec![
            (1, -1, String::from("a")),
            (2, -2, String::from("b")),
            (3, -3, String::from("c"))
        ]
    );
    let pair: (u64, i64) = input.read().unwrap();
    assert_eq!(pair, (7, 8));
    let rest: Option<Vec<u32>> = input.vec(3);
    assert_eq!(rest, None);
    assert!(!input.has_token());
    let none: Vec<u32> = input.vec(0).unwrap();
    assert!(none.is_empty());

    let mut input = fed("1 2 3 4 5 6 7 8 9 10 x");
    let ten: (u8, u16, u32, u64, u128, usize, i8, i16, i32, i64) = input.read().unwrap();
    assert_eq!(ten, (1, 2, 3, 4, 5, 6, 7, 8, 9, 10));
    let bad: Option<(char, char)> = input.read();
    assert_eq!(bad, None);
}
