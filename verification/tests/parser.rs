use langlab::regex::MalformedPattern;
use langlab::regex::RegEx;

fn parse(pattern: &str) -> Result<RegEx, MalformedPattern> {
    let chars: Vec<char> = pattern.chars().collect();
    RegEx::new_from_chars(&chars)
}

#[test]
fn parses_concrete_pattern_tree() {
    let expected = RegEx::Concat(
        Box::new(RegEx::Character('a')),
        Box::new(RegEx::Concat(
            Box::new(RegEx::KleeneClosure(Box::new(RegEx::Character('b')))),
            Box::new(RegEx::Character('c')),
        )),
    );
    assert_eq!(parse("ab*c"), Ok(expected));
}

#[test]
fn parses_single_character() {
    assert_eq!(parse("a"), Ok(RegEx::Character('a')));
}

#[test]
fn parses_union_right_associatively() {
    let expected = RegEx::Union(
        Box::new(RegEx::Character('a')),
        Box::new(RegEx::Union(
            Box::new(RegEx::Character('b')),
            Box::new(RegEx::Character('c')),
        )),
    );
    assert_eq!(parse("a|b|c"), Ok(expected));
}

#[test]
fn parses_chained_postfix_closures() {
    let expected = RegEx::KleeneClosure(Box::new(RegEx::KleeneClosure(Box::new(
        RegEx::Character('a'),
    ))));
    assert_eq!(parse("a**"), Ok(expected));
}

#[test]
fn parses_positive_closure() {
    let expected = RegEx::Concat(
        Box::new(RegEx::PositiveClosure(Box::new(RegEx::Character('a')))),
        Box::new(RegEx::Character('b')),
    );
    assert_eq!(parse("a+b"), Ok(expected));
}

#[test]
fn parses_parenthesized_union_under_closure() {
    let expected = RegEx::KleeneClosure(Box::new(RegEx::Union(
        Box::new(RegEx::Character('a')),
        Box::new(RegEx::Character('b')),
    )));
    assert_eq!(parse("(a|b)*"), Ok(expected));
}

#[test]
fn rejects_empty_pattern() {
    assert_eq!(parse(""), Err(MalformedPattern));
}

#[test]
fn rejects_unmatched_open_paren() {
    assert_eq!(parse("(a"), Err(MalformedPattern));
}

#[test]
fn rejects_trailing_close_paren() {
    assert_eq!(parse("a)"), Err(MalformedPattern));
}

#[test]
fn rejects_dangling_union_operator() {
    assert_eq!(parse("a|"), Err(MalformedPattern));
}

#[test]
fn rejects_empty_group() {
    assert_eq!(parse("()"), Err(MalformedPattern));
}
