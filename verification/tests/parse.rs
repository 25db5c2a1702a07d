use rust_intonation::parse::{
    parse_index, parse_indices, parse_integer, parse_ratio, parse_ratios, split,
};
use rust_intonation::ratio::Ratio;

fn chars(s: &str) -> Vec<char> {
    s.chars().collect()
}

#[test]
fn parse_index_reads_integers_between_commas() {
    assert_eq!(parse_index("1,1,1"), Some(vec![1, 1, 1]));
    assert_eq!(parse_index("-1,0,2"), Some(vec![-1, 0, 2]));
    assert_eq!(parse_index("0,0,1"), Some(vec![0, 0, 1]));
    assert_eq!(parse_index("7"), Some(vec![7]));
    assert_eq!(parse_index("+3,-004"), Some(vec![3, -4]));
    assert_eq!(
        parse_index("2147483647,-2147483648"),
        Some(vec![i32::MAX, i32::MIN])
    );
}

#[test]
fn parse_index_refuses_what_is_not_a_list_of_integers() {
    assert_eq!(parse_index(""), None);
    assert_eq!(parse_index("1,,2"), None);
    assert_eq!(parse_index("1,"), None);
    assert_eq!(parse_index(",1"), None);
    assert_eq!(parse_index("1, 2"), None);
    assert_eq!(parse_index("1,a"), None);
    assert_eq!(parse_index("1.5"), None);
    assert_eq!(parse_index("-"), None);
    assert_eq!(parse_index("--1"), None);
    assert_eq!(parse_index("1-"), None);
    assert_eq!(parse_index("\u{663}"), None);
    assert_eq!(parse_index("2147483648"), None);
    assert_eq!(parse_index("-2147483649"), None);
    assert_eq!(parse_index("99999999999999999999999999"), None);
    assert_eq!(parse_index("99999999999999999999999999x"), None);
}

#[test]
fn parse_indices_reads_every_list_or_none() {
    let lists = vec!["0,0,1".to_string(), "1,1,1".to_string(), "-1,0,2".to_string()];
    assert_eq!(
        parse_indices(lists),
        Some(vec![vec![0, 0, 1], vec![1, 1, 1], vec![-1, 0, 2]])
    );
    assert_eq!(parse_indices(vec![]), Some(vec![]));
    assert_eq!(parse_indices(vec!["1,1".to_string(), "1;1".to_string()]), None);
}

#[test]
fn parse_ratio_reads_numerator_over_denominator() {
    assert_eq!(parse_ratio("3/2"), Some(Ratio::new(3, 2)));
    assert_eq!(parse_ratio("6/4"), Some(Ratio { numer: 3, denom: 2 }));
    assert_eq!(parse_ratio("-3/2"), Some(Ratio { numer: -3, denom: 2 }));
    assert_eq!(parse_ratio("3/-2"), Some(Ratio { numer: 3, denom: -2 }));
    assert_eq!(parse_ratio("0/5"), Some(Ratio { numer: 0, denom: 1 }));
    assert_eq!(parse_ratio("81/80"), Some(Ratio { numer: 81, denom: 80 }));
    assert_eq!(parse_ratio("3/2/7"), Some(Ratio { numer: 3, denom: 2 }));
    assert_eq!(parse_ratio("3/2/"), Some(Ratio { numer: 3, denom: 2 }));
    assert_eq!(parse_ratio("3/2/x"), Some(Ratio { numer: 3, denom: 2 }));
}

#[test]
fn parse_ratio_refuses_what_is_not_a_ratio() {
    assert_eq!(parse_ratio("3"), None);
    assert_eq!(parse_ratio(""), None);
    assert_eq!(parse_ratio("/"), None);
    assert_eq!(parse_ratio("3/"), None);
    assert_eq!(parse_ratio("/2"), None);
    assert_eq!(parse_ratio("3/0"), None);
    assert_eq!(parse_ratio("3/-0"), None);
    assert_eq!(parse_ratio("a/b"), None);
    assert_eq!(parse_ratio("3 / 2"), None);
    assert_eq!(parse_ratio("3:2"), None);
    assert_eq!(parse_ratio("2147483648/1"), None);
}

#[test]
fn parse_ratios_reads_every_ratio_or_none() {
    assert_eq!(
        parse_ratios(vec!["3/2".to_string(), "5/4".to_string()]),
        Some(vec![Ratio::new(3, 2), Ratio::new(5, 4)])
    );
    assert_eq!(parse_ratios(vec![]), Some(vec![]));
    assert_eq!(parse_ratios(vec!["3/2".to_string(), "5".to_string()]), None);
}

#[test]
fn split_keeps_empty_pieces() {
    assert_eq!(split(&chars("a,b"), ','), vec![chars("a"), chars("b")]);
    assert_eq!(split(&chars(""), ','), vec![chars("")]);
    assert_eq!(split(&chars(","), ','), vec![chars(""), chars("")]);
    assert_eq!(split(&chars("1,,23,"), ','), vec![chars("1"), chars(""), chars("23"), chars("")]);
    assert_eq!(split(&chars("3/2"), ','), vec![chars("3/2")]);
}

#[test]
fn parse_integer_reads_signed_decimal_numerals() {
    assert_eq!(parse_integer(&chars("0")), Some(0));
    assert_eq!(parse_integer(&chars("-0")), Some(0));
    assert_eq!(parse_integer(&chars("42")), Some(42));
    assert_eq!(parse_integer(&chars("+42")), Some(42));
    assert_eq!(parse_integer(&chars("-42")), Some(-42));
    assert_eq!(parse_integer(&chars("0000000000000042")), Some(42));
    assert_eq!(parse_integer(&chars("2147483647")), Some(i32::MAX));
    assert_eq!(parse_integer(&chars("-2147483648")), Some(i32::MIN));
    assert_eq!(parse_integer(&chars("+2147483648")), None);
    assert_eq!(parse_integer(&chars("")), None);
    assert_eq!(parse_integer(&chars("+")), None);
    assert_eq!(parse_integer(&chars("4 2")), None);
    assert_eq!(parse_integer(&chars("4+2")), None);
}
