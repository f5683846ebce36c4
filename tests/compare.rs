use std::cmp::Ordering;
use std::cmp::Ordering::{Equal, Greater, Less};
use tsv_sort::compare::{compare_lines, linecomp, tsv_cmp};

#[test]
fn test_linecomp() {
    let cases: Vec<(&str, &str, Ordering)> = vec![
        ("123", "123", Equal),
        ("123", "124", Less),
        ("124", "123", Greater),
        ("123", "1234", Less),
        ("1234", "123", Greater),
        ("-123", "123", Less),
        ("123", "-123", Greater),
        ("-123", "-123", Equal),
        ("-123", "-124", Greater),
        ("-124", "-123", Less),
        ("123", "122.9", Greater),
        ("123", "123.0", Less),
        ("123", "123.1", Less),
        ("123.1", "123", Greater),
        ("123.0", "123", Greater),
        ("122.9", "123", Less),
        ("123.1", "123.1", Equal),
        ("123.0", "123.1", Less),
        ("123.1", "123.0", Greater),
        ("123.0", "123.01", Less),
        ("123.01", "123.0", Greater),
        ("123.0", "123.00", Less),
        ("123.00", "123.0", Greater),
        ("123.0", "124.0", Less),
        ("124.0", "123.0", Greater),
        ("123.0", "124.1", Less),
        ("124.1", "123.0", Greater),
        ("123.0", "124.00", Less),
        ("124.00", "123.0", Greater),
        ("123.0", "124.01", Less),
        ("124.01", "123.0", Greater),
        ("-123.0", "123.0", Less),
        ("123.0", "-123.0", Greater),
        ("-123.0", "-123.0", Equal),
        ("-123.0", "-123.1", Greater),
        ("-123.1", "-123.0", Less),
        ("-123.0", "-123.00", Greater),
        ("-123.00", "-123.0", Less),
        ("-123.02", "-123.01", Less),
        ("-123.01", "-123.02", Greater),
        ("-123.00", "-123.01", Greater),
        ("-123.01", "-123.00", Less),
        ("-123.0", "-123.01", Greater),
        ("-123.01", "-123.0", Less),
        ("-123.0", "-124.0", Greater),
        ("-124.0", "-123.0", Less),
        ("-123.0", "-124.1", Greater),
        ("-124.1", "-123.0", Less),
        ("-123.0", "-124.00", Greater),
        ("-124.00", "-123.0", Less),
        ("-123.0", "-124.01", Greater),
        ("-124.01", "-123.0", Less),
        ("-123", "123.0", Less),
        ("123", "-123.0", Greater),
        ("-123.0", "123", Less),
        ("123.0", "-123", Greater),
        ("-123", "123.1", Less),
        ("123.1", "-123", Greater),
        ("-123.1", "123", Less),
        ("123", "-123.1", Greater),
        ("-123", "123.0", Less),
        ("123", "-123.0", Greater),
        ("-123.0", "123", Less),
        ("123.0", "-123", Greater),
        ("-123", "123.00", Less),
        ("123.00", "-123", Greater),
        ("-123.00", "123", Less),
        ("123", "-123.00", Greater),
        ("-123", "123.01", Less),
        ("123.01", "-123", Greater),
        ("-123.01", "123", Less),
        ("123", "-123.01", Greater),
        ("123", "our", Greater),
        ("own", "-123", Greater),
        ("our", "own", Less),
        ("own", "our", Greater),
        ("123our", "123own", Less),
        ("123own", "123our", Greater),
        ("1234our", "123own", Greater),
        ("123own", "1234our", Less),
        ("12h34", "12h345", Less),
        ("12h345", "12h34", Greater),
        ("identical\t12.34", "identical\t12.340", Less),
        ("identical\t12.340", "identical\t12.34", Greater),
        ("identical\tlines\n", "identical\tlines\n", Equal),
        ("12\tfoo\n", "123\tfoo\n", Less),
        ("42\tfoo\n", "42\tbar\n", Greater),
        ("-42\tbar\n", "-42\tfoo\n", Less),
        ("-42\tfoo\n", "-42\tbar\n", Greater),
    ];
    for (l1, l2, expected) in cases {
        assert_eq!(
            tsv_cmp(l1, l2),
            expected,
            "tsv_cmp({:?}, {:?}) == {:?}, expected {:?}",
            l1,
            l2,
            tsv_cmp(l1, l2),
            expected,
        );
    }
}

#[test]
fn swapping_lines_inverts_the_order() {
    let lines = [
        "", "0", "00", "-", "-0", "123", "123.0", "123.00", "-123", "-123.0", "own", "our",
        "12h34", "12h345", "a\tb", "a\t", "a", "-5", "-5\tx", "12359", "1246", "x.5",
    ];
    for a in lines.iter() {
        for b in lines.iter() {
            assert_eq!(tsv_cmp(a, b), tsv_cmp(b, a).reverse(), "{:?} vs {:?}", a, b);
        }
    }
    assert_eq!(tsv_cmp("123.0", "123"), Greater);
    assert_eq!(tsv_cmp("123", "123.0"), Less);
}

#[test]
fn order_is_transitive_on_samples() {
    let lines = [
        "", "0", "-", "1", "10", "11", "10.", "10x", "10-", "-1", "-10.5", "x", "x0", "0-.",
        "1\t2", "1\t", "-1\t2", "-1\t",
    ];
    for a in lines.iter() {
        for b in lines.iter() {
            for c in lines.iter() {
                if tsv_cmp(a, b) != Greater && tsv_cmp(b, c) != Greater {
                    assert_ne!(tsv_cmp(a, c), Greater, "{:?} {:?} {:?}", a, b, c);
                }
            }
        }
    }
}

#[test]
fn longer_digit_run_is_larger() {
    assert_eq!(tsv_cmp("-123", "-124"), Greater);
    assert_eq!(tsv_cmp("123", "-123"), Greater);
    assert_eq!(tsv_cmp("12359", "1246"), Greater);
    assert_eq!(tsv_cmp("0012", "9"), Greater);
    assert_eq!(tsv_cmp("007", "7"), Equal);
}

#[test]
fn equal_numbers_fall_back_to_text() {
    assert_eq!(tsv_cmp("123own", "123our"), Greater);
    assert_eq!(tsv_cmp("12x", "12.5"), Less);
    assert_eq!(tsv_cmp("12h9", "12h10"), Greater);
}

#[test]
fn minus_sign_rules() {
    assert_eq!(tsv_cmp("", "-5"), Greater);
    assert_eq!(tsv_cmp("-own", "own"), Less);
    assert_eq!(tsv_cmp("-5", "-5\tx"), Greater);
    assert_eq!(tsv_cmp("5", "5\tx"), Less);
}

#[test]
fn linecomp_gives_integers() {
    assert_eq!(linecomp("1", "2"), -1);
    assert_eq!(linecomp("2", "2"), 0);
    assert_eq!(linecomp("3", "2"), 1);
}

#[test]
fn bytes_compare_like_text() {
    assert_eq!(compare_lines(b"42\tfoo", b"42\tbar"), Greater);
    assert_eq!(compare_lines("é".as_bytes(), "z".as_bytes()), Greater);
    assert_eq!(tsv_cmp("é", "z"), Greater);
}

#[test]
fn comparator_is_reachable_from_the_crate_root() {
    assert_eq!(tsv_sort::tsv_cmp("123\tour", "123\town"), Less);
    assert_eq!(tsv_sort::linecomp("-1", "1"), -1);
}
