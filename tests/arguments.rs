use simple_arguments::convert::{
    parse_bool, parse_char, parse_i32, parse_i64, parse_u32, parse_u64, parse_usize,
};
use simple_arguments::order::text_lt;
use simple_arguments::{ArgError, Arguments, ParseFailure};

#[test]
fn simple_test() {
    let mut number: usize = 12;
    let mut string: String = String::new();
    let mut boolean: bool = false;
    let mut arguments = Arguments::new(None);

    let a = &["--bool", "true", "--number", "123", "--string", "penis"];

    arguments.add(&mut number, "number", "a number");
    arguments.add(&mut boolean, "bool", "a boolean value");
    arguments.add(&mut string, "string", "a string");
    arguments.parse(a).unwrap();
    drop(arguments);

    assert_eq!(number, 123);
    assert_eq!(boolean, true);
    assert_eq!(string, "penis");
}

#[test]
fn round_trip_of_scalars() {
    let mut n: usize = 0;
    let mut m: i64 = 0;
    let mut t = String::new();
    let mut arguments = Arguments::new(None);
    arguments.add(&mut n, "n", "");
    arguments.add(&mut m, "m", "");
    arguments.add(&mut t, "t", "");
    let left = arguments
        .parse(&["--n", "18446744073709551615", "--m", "-9223372036854775808", "--t", "hello world"])
        .unwrap();
    drop(arguments);
    assert!(left.is_empty());
    assert_eq!(n, usize::MAX);
    assert_eq!(m, i64::MIN);
    assert_eq!(t, "hello world");
}

#[test]
fn flag_order_does_not_matter() {
    let (mut a1, mut b1): (usize, usize) = (0, 0);
    let (mut a2, mut b2): (usize, usize) = (0, 0);
    let mut first = Arguments::new(None);
    first.add(&mut a1, "a", "");
    first.add(&mut b1, "b", "");
    first.parse(&["--a", "1", "--b", "2"]).unwrap();
    drop(first);
    let mut second = Arguments::new(None);
    second.add(&mut a2, "a", "");
    second.add(&mut b2, "b", "");
    second.parse(&["--b", "2", "--a", "1"]).unwrap();
    drop(second);
    assert_eq!((a1, b1), (1, 2));
    assert_eq!((a1, b1), (a2, b2));
}

#[test]
fn presence_flag_takes_no_value() {
    let mut verbose = false;
    let mut count: usize = 0;
    let mut arguments = Arguments::new(None);
    arguments.add_bool(&mut verbose, "verbose", "talk more");
    arguments.add(&mut count, "count", "how many");
    let left = arguments.parse(&["--verbose", "--count", "5"]).unwrap();
    drop(arguments);
    assert!(verbose);
    assert_eq!(count, 5);
    assert!(left.is_empty());
}

#[test]
fn unknown_flag_is_rejected() {
    let mut count: usize = 7;
    let mut arguments = Arguments::new(None);
    arguments.add(&mut count, "count", "");
    let r = arguments.parse(&["--nope"]);
    drop(arguments);
    match r {
        Err(ParseFailure::UnknownFlag(name)) => assert_eq!(name, "nope"),
        other => panic!("unexpected {:?}", other),
    }
    assert_eq!(count, 7);
}

#[test]
fn earlier_writes_stay_after_failure() {
    let mut count: usize = 7;
    let mut arguments = Arguments::new(None);
    arguments.add(&mut count, "count", "");
    let r = arguments.parse(&["--count", "3", "--nope"]);
    drop(arguments);
    assert!(matches!(r, Err(ParseFailure::UnknownFlag(_))));
    assert_eq!(count, 3);
}

#[test]
fn exhausted_values() {
    let mut count: usize = 7;
    let mut arguments = Arguments::new(None);
    arguments.add(&mut count, "count", "");
    let r = arguments.parse(&["--count"]);
    drop(arguments);
    match r {
        Err(ParseFailure::Failed(name, ArgError::OutOfArgs)) => assert_eq!(name, "count"),
        other => panic!("unexpected {:?}", other),
    }
    assert_eq!(count, 7);
}

#[test]
fn unparsable_value() {
    let mut count: usize = 7;
    let mut arguments = Arguments::new(None);
    arguments.add(&mut count, "count", "");
    let r = arguments.parse(&["--count", "seven"]);
    drop(arguments);
    match r {
        Err(ParseFailure::Failed(name, ArgError::Unparsable(label))) => {
            assert_eq!(name, "count");
            assert_eq!(label, "usize");
        }
        other => panic!("unexpected {:?}", other),
    }
    assert_eq!(count, 7);
}

#[test]
fn leftovers_pass_through() {
    let mut flag = false;
    let mut arguments = Arguments::new(None);
    arguments.add_bool(&mut flag, "flag", "");
    let left = arguments.parse(&["extra1", "--flag"]).unwrap();
    drop(arguments);
    assert_eq!(left, vec!["extra1".to_string()]);
    assert!(flag);
}

#[test]
fn values_are_pooled_across_positions() {
    let mut a: usize = 0;
    let mut b = String::new();
    let mut arguments = Arguments::new(None);
    arguments.add(&mut a, "a", "");
    arguments.add(&mut b, "b", "");
    let left = arguments.parse(&["4", "x", "--a", "--b", "rest"]).unwrap();
    drop(arguments);
    assert_eq!(a, 4);
    assert_eq!(b, "x");
    assert_eq!(left, vec!["rest".to_string()]);
}

#[test]
fn empty_input() {
    let mut a: usize = 9;
    let mut arguments = Arguments::new(None);
    arguments.add(&mut a, "a", "");
    let left = arguments.parse(&[]).unwrap();
    drop(arguments);
    assert!(left.is_empty());
    assert_eq!(a, 9);
}

#[test]
fn usage_is_sorted_and_padded() {
    let mut number: usize = 0;
    let mut help = false;
    let mut name = String::new();
    let mut first = Arguments::new(Some("prog"));
    first.add(&mut number, "number", "a number");
    first.add_bool(&mut help, "help", "show help");
    first.add(&mut name, "a-very-long-flag-name-indeed", "long");
    let expected = "usage:\nprog [flags] args...\n\
        \t--a-very-long-flag-name-indeed (String) long\n\
        \t--help                 (flag) show help\n\
        \t--number               (usize) a number\n";
    assert_eq!(first.usage(), expected);
}

#[test]
fn usage_ignores_registration_order() {
    let (mut x, mut y, mut z): (usize, bool, i64) = (0, false, 0);
    let (mut x2, mut y2, mut z2): (usize, bool, i64) = (0, false, 0);
    let mut first = Arguments::new(None);
    first.add(&mut x, "x", "ex");
    first.add(&mut y, "y", "why");
    first.add(&mut z, "b", "bee");
    let mut second = Arguments::new(None);
    second.add(&mut z2, "b", "bee");
    second.add(&mut y2, "y", "why");
    second.add(&mut x2, "x", "ex");
    assert_eq!(first.usage(), second.usage());
    assert!(first.usage().starts_with("\t--b "));
    assert_eq!(Arguments::new(None).usage(), "");
}

#[test]
fn reregistration_keeps_the_second() {
    let mut one: usize = 0;
    let mut two: usize = 0;
    let mut arguments = Arguments::new(None);
    arguments.add(&mut one, "n", "first");
    arguments.add(&mut two, "n", "second");
    assert_eq!(arguments.usage(), "\t--n                    (usize) second\n");
    arguments.parse(&["--n", "5"]).unwrap();
    drop(arguments);
    assert_eq!(one, 0);
    assert_eq!(two, 5);
}

#[test]
fn conversions() {
    assert_eq!(parse_usize("+42"), Some(42));
    assert_eq!(parse_usize("-1"), None);
    assert_eq!(parse_usize(""), None);
    assert_eq!(parse_usize("+"), None);
    assert_eq!(parse_usize("18446744073709551616"), None);
    assert_eq!(parse_usize("1x"), None);
    assert_eq!(parse_i64("-17"), Some(-17));
    assert_eq!(parse_i64("9223372036854775807"), Some(i64::MAX));
    assert_eq!(parse_i64("9223372036854775808"), None);
    assert_eq!(parse_i64("-"), None);
    assert_eq!(parse_bool("true"), Some(true));
    assert_eq!(parse_bool("false"), Some(false));
    assert_eq!(parse_bool("True"), None);
}

#[test]
fn text_order() {
    assert!(text_lt("a", "b"));
    assert!(text_lt("ab", "abc"));
    assert!(!text_lt("abc", "ab"));
    assert!(!text_lt("x", "x"));
    assert!(text_lt("Z", "a"));
}

#[test]
fn more_integer_widths_and_char() {
    let (mut a, mut b): (i32, i32) = (0, 0);
    let mut c: u32 = 0;
    let mut d: u64 = 0;
    let mut e: char = ' ';
    let mut arguments = Arguments::new(None);
    arguments.add(&mut a, "a", "");
    arguments.add(&mut b, "b", "");
    arguments.add(&mut c, "c", "");
    arguments.add(&mut d, "d", "");
    arguments.add(&mut e, "e", "");
    assert!(arguments.usage().contains("(i32)"));
    assert!(arguments.usage().contains("(char)"));
    let left = arguments
        .parse(&["--b", "2", "--a", "-1", "--c", "4294967295", "--d", "18446744073709551615", "--e", "z"])
        .unwrap();
    drop(arguments);
    assert!(left.is_empty());
    assert_eq!((a, b), (-1, 2));
    assert_eq!(c, u32::MAX);
    assert_eq!(d, u64::MAX);
    assert_eq!(e, 'z');
}

#[test]
fn more_conversions() {
    assert_eq!(parse_u32("4294967296"), None);
    assert_eq!(parse_u32("+7"), Some(7));
    assert_eq!(parse_u64("-0"), None);
    assert_eq!(parse_i32("-2147483648"), Some(i32::MIN));
    assert_eq!(parse_i32("2147483648"), None);
    assert_eq!(parse_char("ab"), None);
    assert_eq!(parse_char("é"), Some('é'));
}

#[test]
fn usage_of_two_usize_bindings() {
    let (mut a, mut b): (usize, usize) = (0, 0);
    let mut arguments = Arguments::new(None);
    arguments.add(&mut a, "zeta", "z");
    arguments.add(&mut b, "alpha", "a");
    let expected = format!("\t--{: <20} ({}) {}\n", "alpha", "usize", "a")
        + &format!("\t--{: <20} ({}) {}\n", "zeta", "usize", "z");
    assert_eq!(arguments.usage(), expected);
}
