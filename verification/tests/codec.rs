use htpasswd::parse;
use indexmap::IndexMap;

#[test]
fn it_parse() {
    let input = "johndoe:$apr1$hdqQY4oe$6PtEz0XH6ORg.GPKCTpG31
janedoe
# comment
janedoe:$apr1$D7qCR.yD$vfKO/2urv89Okpxl8VGpb/
        ";
    let mut output = IndexMap::new();
    output.insert(
        "johndoe".to_string(),
        "$apr1$hdqQY4oe$6PtEz0XH6ORg.GPKCTpG31".to_string(),
    );
    output.insert(
        "janedoe".to_string(),
        "$apr1$D7qCR.yD$vfKO/2urv89Okpxl8VGpb/".to_string(),
    );
    assert_eq!(output, parse(input));
}

#[test]
fn it_stringify() {
    let output = "johndoe:$apr1$hdqQY4oe$6PtEz0XH6ORg.GPKCTpG31
janedoe:$apr1$D7qCR.yD$vfKO/2urv89Okpxl8VGpb/
";
    let mut input = IndexMap::new();
    input.insert(
        "johndoe".to_string(),
        "$apr1$hdqQY4oe$6PtEz0XH6ORg.GPKCTpG31".to_string(),
    );
    input.insert(
        "janedoe".to_string(),
        "$apr1$D7qCR.yD$vfKO/2urv89Okpxl8VGpb/".to_string(),
    );
    assert_eq!(output, htpasswd::stringify(input));
}

#[test]
fn parse_empty_input_gives_empty_table() {
    assert!(parse("").is_empty());
}

#[test]
fn parse_whitespace_only_gives_empty_table() {
    assert!(parse(" \t \r\n  \n\t").is_empty());
}

#[test]
fn stringify_empty_table_gives_empty_string() {
    assert_eq!(htpasswd::stringify(IndexMap::new()), "");
}

#[test]
fn parse_trims_key_and_value() {
    let m = parse("  user :\thash value \n");
    assert_eq!(m.len(), 1);
    assert_eq!(m.get("user").map(String::as_str), Some("hash value"));
}

#[test]
fn parse_drops_line_without_colon() {
    assert!(parse("janedoe").is_empty());
}

#[test]
fn parse_drops_line_with_two_colons() {
    assert!(parse("a:b:c").is_empty());
}

#[test]
fn parse_drops_comment_with_one_colon() {
    assert!(parse("# comment:x").is_empty());
}

#[test]
fn parse_keeps_first_position_on_overwrite() {
    let m = parse("a:1\nb:2\na:3");
    assert_eq!(m.len(), 2);
    let first = m.get_index(0).unwrap();
    let second = m.get_index(1).unwrap();
    assert_eq!((first.0.as_str(), first.1.as_str()), ("a", "3"));
    assert_eq!((second.0.as_str(), second.1.as_str()), ("b", "2"));
    assert_eq!(htpasswd::stringify(m), "a:3\nb:2\n");
}

#[test]
fn parse_accepts_empty_fields() {
    let m = parse(" : ");
    assert_eq!(m.len(), 1);
    assert_eq!(m.get("").map(String::as_str), Some(""));
}

#[test]
fn parse_handles_crlf_lines() {
    let m = parse("a:1\r\nb:2\r\n");
    assert_eq!(m.len(), 2);
    assert_eq!(m.get("a").map(String::as_str), Some("1"));
    assert_eq!(m.get("b").map(String::as_str), Some("2"));
}

#[test]
fn reparse_of_stringify_returns_same_table() {
    let mut t = IndexMap::new();
    t.insert("zoe".to_string(), "$1$abc".to_string());
    t.insert("amy".to_string(), "$2$def".to_string());
    t.insert("bob".to_string(), "".to_string());
    let back = parse(&htpasswd::stringify(t.clone()));
    assert_eq!(back, t);
    for i in 0..t.len() {
        assert_eq!(back.get_index(i), t.get_index(i));
    }
}
