use passarg::{format_i32, parse_i32, split_first_colon, text_eq, trim_line};
use passarg::{Error, Source};

fn exercise(arg: &str) -> Source {
    match arg.parse::<Source>() {
        Ok(s) => s,
        Err(e) => panic!("{arg}: {e:?}"),
    }
}

#[test]
fn test_with_clap_derive() {
    assert_eq!(exercise("pass:omg"), Source::Pass("omg".into()));
    assert_eq!(exercise("env:omg"), Source::Env("omg".into()));
    assert_eq!(exercise("file:omg"), Source::File("omg".into()));
    assert_eq!(exercise("fd:3"), Source::Fd(3));
    assert_eq!(exercise("stdin"), Source::Stdin);
    assert_eq!(exercise("prompt:omg"), Source::Prompt("omg".into()));
    assert_eq!(exercise("prompt"), Source::Prompt("Password: ".into()));
}

#[test]
fn unknown_type_is_rejected() {
    assert!(matches!(Source::parse("bogus:x"), Err(Error::InvalidType(t)) if t == "bogus"));
    assert!(matches!(Source::parse(""), Err(Error::InvalidType(t)) if t.is_empty()));
    assert!(matches!(Source::parse("pass"), Err(Error::InvalidType(t)) if t == "pass"));
    assert!(matches!(Source::parse("stdin:"), Err(Error::InvalidType(t)) if t == "stdin"));
    assert!(matches!(Source::parse("PASS:x"), Err(Error::InvalidType(t)) if t == "PASS"));
}

#[test]
fn malformed_descriptor_number() {
    assert!(matches!(Source::parse("fd:notanumber"), Err(Error::FdLiteral(t)) if t == "notanumber"));
    assert!(matches!(Source::parse("fd:"), Err(Error::FdLiteral(_))));
    assert!(matches!(Source::parse("fd:-"), Err(Error::FdLiteral(_))));
    assert!(matches!(Source::parse("fd: 3"), Err(Error::FdLiteral(_))));
    assert!(matches!(Source::parse("fd:2147483648"), Err(Error::FdLiteral(_))));
    assert!(matches!(Source::parse("fd:-2147483649"), Err(Error::FdLiteral(_))));
}

#[test]
fn descriptor_numbers() {
    assert_eq!(exercise("fd:+7"), Source::Fd(7));
    assert_eq!(exercise("fd:-1"), Source::Fd(-1));
    assert_eq!(exercise("fd:007"), Source::Fd(7));
    assert_eq!(exercise("fd:2147483647"), Source::Fd(i32::MAX));
    assert_eq!(exercise("fd:-2147483648"), Source::Fd(i32::MIN));
}

#[test]
fn payload_is_taken_verbatim() {
    assert_eq!(exercise("pass:a:b:c"), Source::Pass("a:b:c".into()));
    assert_eq!(exercise("pass:"), Source::Pass(String::new()));
    assert_eq!(exercise("file:/tmp/x y"), Source::File("/tmp/x y".into()));
    assert_eq!(exercise("prompt:"), Source::Prompt(String::new()));
    assert_eq!(exercise("env:ünï"), Source::Env("ünï".into()));
}

#[test]
fn sources_are_written_back() {
    assert_eq!(Source::Pass("omg".into()).to_arg_string(), "pass:omg");
    assert_eq!(Source::Env("HOME".into()).to_arg_string(), "env:HOME");
    assert_eq!(Source::File("a.txt".into()).to_arg_string(), "file:a.txt");
    assert_eq!(Source::Fd(3).to_arg_string(), "fd:3");
    assert_eq!(Source::Fd(-12).to_arg_string(), "fd:-12");
    assert_eq!(Source::Stdin.to_arg_string(), "stdin");
    assert_eq!(Source::Prompt("Password: ".into()).to_arg_string(), "prompt");
    assert_eq!(Source::Prompt("Password:".into()).to_arg_string(), "prompt:Password:");
}

#[test]
fn parse_then_write_round_trips() {
    for arg in ["pass:omg", "env:X", "file:./a:b", "fd:3", "fd:-40", "stdin", "prompt:hi", "prompt:", "prompt"] {
        let src = exercise(arg);
        assert_eq!(src.to_arg_string(), arg);
        assert_eq!(exercise(&src.to_arg_string()), src);
    }
    for arg in ["prompt:Password: ", "fd:+5", "fd:0009"] {
        let src = exercise(arg);
        assert_eq!(exercise(&src.to_arg_string()), src);
    }
    assert_eq!(exercise("prompt").to_arg_string(), "prompt");
    assert_eq!(exercise("prompt:Password: ").to_arg_string(), "prompt");
    assert_eq!(exercise("fd:0009").to_arg_string(), "fd:9");
}

#[test]
fn decimal_codec() {
    assert_eq!(parse_i32("0"), Some(0));
    assert_eq!(parse_i32("-0"), Some(0));
    assert_eq!(parse_i32("12345"), Some(12345));
    assert_eq!(parse_i32("+"), None);
    assert_eq!(parse_i32("1a"), None);
    assert_eq!(parse_i32(""), None);
    assert_eq!(parse_i32("99999999999"), None);
    assert_eq!(format_i32(0), "0");
    assert_eq!(format_i32(908), "908");
    assert_eq!(format_i32(i32::MAX), "2147483647");
    assert_eq!(format_i32(i32::MIN), "-2147483648");
    for n in [0, 1, -1, 10, -10, 65535, i32::MAX, i32::MIN] {
        assert_eq!(parse_i32(&format_i32(n)), Some(n));
        assert_eq!(parse_i32(&format_i32(n)), n.to_string().parse::<i32>().ok());
    }
}

#[test]
fn text_helpers() {
    assert!(text_eq("abc", "abc"));
    assert!(!text_eq("abc", "abd"));
    assert!(!text_eq("abc", "ab"));
    assert_eq!(split_first_colon("a:b:c"), ("a", Some("b:c")));
    assert_eq!(split_first_colon(":x"), ("", Some("x")));
    assert_eq!(split_first_colon("abc"), ("abc", None));
    assert_eq!(trim_line("alpha\n"), "alpha");
    assert_eq!(trim_line("beta"), "beta");
    assert_eq!(trim_line(""), "");
    assert_eq!(trim_line("x\n\n"), "x");
    assert_eq!(trim_line("y\r\n"), "y\r");
}

#[test]
fn from_str_reports_errors() {
    assert!(matches!("bogus:x".parse::<Source>(), Err(Error::InvalidType(t)) if t == "bogus"));
    assert!(matches!("".parse::<Source>(), Err(Error::InvalidType(t)) if t.is_empty()));
    assert!(matches!("fd:notanumber".parse::<Source>(), Err(Error::FdLiteral(_))));
    assert!(matches!("fd:1.5".parse::<Source>(), Err(Error::FdLiteral(_))));
}
