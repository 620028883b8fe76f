//! Tests for the os-release dialect parser.

use sp_variant::yai::{parse_line, parse_text, YAIError};

const LINES_BAD: [&str; 5] = [
    "NAME='",
    "NAME=\"foo'",
    "FOO BAR=baz",
    "FOO=bar\\",
    "FOO=\"meow\\\"",
];

const LINES_COMMENTS: [&str; 4] = ["", "   \t  ", "  \t  # something", "#"];

const LINES_OK: [(&str, (&str, &str)); 5] = [
    ("ID=centos", ("ID", "centos")),
    ("ID='centos'", ("ID", "centos")),
    (
        "NAME='something long \"and weird'",
        ("NAME", "something long \"and weird"),
    ),
    (
        "NAME=\"something long \'and \\\\weird\\\"\\`\"",
        ("NAME", "something long 'and \\weird\"`"),
    ),
    (
        "NAME=unquoted\\\"and\\\\-escaped\\'",
        ("NAME", "unquoted\"and\\-escaped'"),
    ),
];

const CFG_TEXT: &str = "PRETTY_NAME=\"Debian GNU/Linux 11 (bullseye)\"
NAME=\"Debian GNU/Linux\"
VERSION_ID=\"11\"
VERSION=\"11 (bullseye)\"
VERSION_CODENAME=bullseye
ID=debian
HOME_URL=\"https://www.debian.org/\"
SUPPORT_URL=\"https://www.debian.org/support\"
BUG_REPORT_URL=\"https://bugs.debian.org/\"";

const CFG_EXPECTED: [(&str, Option<&str>); 4] = [
    ("ID", Some("debian")),
    ("VERSION_ID", Some("11")),
    ("VERSION", Some("11 (bullseye)")),
    ("FOO", None),
];

#[test]
fn parse_bad() {
    println!("\nMaking sure malformed lines are rejected");
    for line in &LINES_BAD {
        println!("- {:?}", line);
        match parse_line(line) {
            Ok(data) => panic!("The {:?} malformed line was misparsed as {:?}", line, data),
            Err(err) => println!("  - rejected: {:?}", err),
        }
    }
}

#[test]
fn parse_comments() {
    println!("\nMaking sure comments and empty lines are ignored");
    for line in &LINES_COMMENTS {
        println!("- {:?}", line);
        let res = parse_line(line).unwrap();
        println!("  - {:?}", res);
        assert_eq!(res, None);
    }
}

#[test]
fn parse_good() {
    println!("\nMaking sure well-formed lines are parsed correctly");
    for (line, (varname, value)) in &LINES_OK {
        println!("- {:?}", line);
        let (p_varname, p_value) = parse_line(line).unwrap().unwrap();
        println!("  - name {:?} value {:?}", p_varname, p_value);
        assert_eq!(varname, &p_varname);
        assert_eq!(value, &p_value);
    }
}

#[test]
fn parse() {
    println!("\nParsing the os-release text");
    let res = parse_text(CFG_TEXT).unwrap();
    assert_eq!(res.len(), 9);
    for (name, value) in &CFG_EXPECTED {
        let pvalue = res.get(name);
        println!("- {:?}: expected {:?}, got {:?}", name, value, pvalue);
        match value {
            Some(value) => match pvalue {
                Some(pvalue) => assert_eq!(value, &pvalue.as_str()),
                None => panic!("{}: expected {:?} got {:?}", name, value, pvalue),
            },
            None => assert_eq!(pvalue, None),
        }
    }
}

#[test]
fn single_quote_unterminated() {
    assert_eq!(
        parse_line("NAME='"),
        Err(YAIError::MismatchedQuotes("NAME='".to_string()))
    );
}

#[test]
fn double_then_single_mismatch() {
    assert_eq!(
        parse_line("NAME=\"foo'"),
        Err(YAIError::MismatchedQuotes("NAME=\"foo'".to_string()))
    );
}

#[test]
fn space_in_key() {
    assert_eq!(
        parse_line("FOO BAR=baz"),
        Err(YAIError::BadLine("FOO BAR=baz".to_string()))
    );
}

#[test]
fn trailing_backslash_unquoted() {
    assert_eq!(
        parse_line("FOO=bar\\"),
        Err(YAIError::BackslashAtEnd("FOO=bar\\".to_string()))
    );
}

#[test]
fn escaped_closing_quote() {
    assert_eq!(
        parse_line("FOO=\"meow\\\""),
        Err(YAIError::MismatchedQuotes("FOO=\"meow\\\"".to_string()))
    );
}

#[test]
fn quote_in_single_quoted() {
    assert_eq!(
        parse_line("NAME='a'b'"),
        Err(YAIError::QuoteInQuoted("NAME='a'b'".to_string()))
    );
}

#[test]
fn unquoted_escapes_exactly() {
    // Escape decoding: each backslash consumes the next character.
    assert_eq!(
        parse_line("X=\\\\"),
        Ok(Some(("X".to_string(), "\\".to_string())))
    );
    assert_eq!(
        parse_line("X=a\\tb"),
        Ok(Some(("X".to_string(), "atb".to_string())))
    );
    assert_eq!(parse_line("X="), Ok(Some(("X".to_string(), String::new()))));
}

#[test]
fn empty_quoted_values() {
    assert_eq!(parse_line("X=''"), Ok(Some(("X".to_string(), String::new()))));
    assert_eq!(
        parse_line("X=\"\""),
        Ok(Some(("X".to_string(), String::new())))
    );
}

#[test]
fn first_error_aborts() {
    let text = "A=1\nNAME='\nB=2";
    assert_eq!(
        parse_text(text).unwrap_err(),
        YAIError::MismatchedQuotes("NAME='".to_string())
    );
    let text2 = "A=1\nFOO BAR=baz\nNAME='\n";
    assert_eq!(
        parse_text(text2).unwrap_err(),
        YAIError::BadLine("FOO BAR=baz".to_string())
    );
}

#[test]
fn later_binding_wins() {
    let res = parse_text("A=1\nB=2\nA=3").unwrap();
    assert_eq!(res.len(), 2);
    assert_eq!(res.get("A").unwrap().as_str(), "3");
    assert_eq!(res.get("B").unwrap().as_str(), "2");
}

#[test]
fn crlf_line_endings() {
    let res = parse_text("A=1\r\nB=2\r\n").unwrap();
    assert_eq!(res.len(), 2);
    assert_eq!(res.get("A").unwrap().as_str(), "1");
    assert_eq!(res.get("B").unwrap().as_str(), "2");
}

#[test]
fn empty_text() {
    let res = parse_text("").unwrap();
    assert_eq!(res.len(), 0);
    assert_eq!(res.get("ID"), None);
    let res2 = parse_text("\n\n").unwrap();
    assert_eq!(res2.len(), 0);
}

#[test]
fn unicode_whitespace() {
    // An em space counts as whitespace before a comment marker...
    assert_eq!(parse_line("\u{2003} # x"), Ok(None));
    // ...but whitespace inside a value is kept, never trimmed.
    assert_eq!(
        parse_line("A=\u{a0}b"),
        Ok(Some(("A".to_string(), "\u{a0}b".to_string())))
    );
}

#[test]
fn parse_twice_equal() {
    let res1 = parse_text(CFG_TEXT).unwrap();
    let res2 = parse_text(CFG_TEXT).unwrap();
    assert_eq!(res1.len(), res2.len());
    for name in [
        "PRETTY_NAME",
        "NAME",
        "VERSION_ID",
        "VERSION",
        "VERSION_CODENAME",
        "ID",
        "HOME_URL",
        "SUPPORT_URL",
        "BUG_REPORT_URL",
    ] {
        assert_eq!(res1.get(name), res2.get(name));
        assert!(res1.get(name).is_some());
    }
}
