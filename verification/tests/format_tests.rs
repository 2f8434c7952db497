use sidu::format::{parse_fmt, CompileError, FormatCmd};
use sidu::radix::ByteFmt;

#[test]
fn empty_template_is_one_empty_literal() {
    assert_eq!(parse_fmt(""), Ok(vec![FormatCmd::JustText("")]));
}

#[test]
fn plain_template_is_one_literal() {
    assert_eq!(parse_fmt("hello, world"), Ok(vec![FormatCmd::JustText("hello, world")]));
}

#[test]
fn single_directive_has_empty_literals_around_it() {
    assert_eq!(
        parse_fmt("%d"),
        Ok(vec![
            FormatCmd::JustText(""),
            FormatCmd::NextByte(ByteFmt::Dec),
            FormatCmd::JustText(""),
        ])
    );
}

#[test]
fn each_specifier_selects_its_radix() {
    assert_eq!(
        parse_fmt("%b%d%h"),
        Ok(vec![
            FormatCmd::JustText(""),
            FormatCmd::NextByte(ByteFmt::Bin),
            FormatCmd::JustText(""),
            FormatCmd::NextByte(ByteFmt::Dec),
            FormatCmd::JustText(""),
            FormatCmd::NextByte(ByteFmt::Hex),
            FormatCmd::JustText(""),
        ])
    );
}

#[test]
fn literals_between_directives_are_kept_in_order() {
    assert_eq!(
        parse_fmt("a%hbc%bdef"),
        Ok(vec![
            FormatCmd::JustText("a"),
            FormatCmd::NextByte(ByteFmt::Hex),
            FormatCmd::JustText("bc"),
            FormatCmd::NextByte(ByteFmt::Bin),
            FormatCmd::JustText("def"),
        ])
    );
}

#[test]
fn literal_after_second_directive_starts_after_it() {
    assert_eq!(
        parse_fmt("0x%h 0b%b\n"),
        Ok(vec![
            FormatCmd::JustText("0x"),
            FormatCmd::NextByte(ByteFmt::Hex),
            FormatCmd::JustText(" 0b"),
            FormatCmd::NextByte(ByteFmt::Bin),
            FormatCmd::JustText("\n"),
        ])
    );
}

#[test]
fn multibyte_text_is_cut_on_character_boundaries() {
    assert_eq!(
        parse_fmt("é%dλ→%h☃"),
        Ok(vec![
            FormatCmd::JustText("é"),
            FormatCmd::NextByte(ByteFmt::Dec),
            FormatCmd::JustText("λ→"),
            FormatCmd::NextByte(ByteFmt::Hex),
            FormatCmd::JustText("☃"),
        ])
    );
}

#[test]
fn invalid_specifier_is_reported_with_its_character() {
    assert_eq!(parse_fmt("%x"), Err(CompileError::InvalidSpecifier(Some('x'))));
}

#[test]
fn bare_marker_at_end_is_reported_without_character() {
    assert_eq!(parse_fmt("%"), Err(CompileError::InvalidSpecifier(None)));
    assert_eq!(parse_fmt("abc%"), Err(CompileError::InvalidSpecifier(None)));
    assert_eq!(parse_fmt("%d,%"), Err(CompileError::InvalidSpecifier(None)));
}

#[test]
fn first_invalid_marker_decides_the_error() {
    assert_eq!(parse_fmt("%d%q%z"), Err(CompileError::InvalidSpecifier(Some('q'))));
    assert_eq!(parse_fmt("a%y%"), Err(CompileError::InvalidSpecifier(Some('y'))));
}

#[test]
fn doubled_marker_is_no_escape() {
    assert_eq!(parse_fmt("%%"), Err(CompileError::InvalidSpecifier(Some('%'))));
    assert_eq!(parse_fmt("100%%d"), Err(CompileError::InvalidSpecifier(Some('%'))));
}

#[test]
fn uppercase_specifier_is_invalid() {
    assert_eq!(parse_fmt("%D"), Err(CompileError::InvalidSpecifier(Some('D'))));
    assert_eq!(parse_fmt("%H"), Err(CompileError::InvalidSpecifier(Some('H'))));
    assert_eq!(parse_fmt("%B"), Err(CompileError::InvalidSpecifier(Some('B'))));
}

#[test]
fn multibyte_character_after_marker_is_an_invalid_specifier() {
    assert_eq!(parse_fmt("%é"), Err(CompileError::InvalidSpecifier(Some('é'))));
    assert_eq!(parse_fmt("x%☃d"), Err(CompileError::InvalidSpecifier(Some('☃'))));
}

#[test]
fn specifier_character_is_consumed_with_its_marker() {
    assert_eq!(
        parse_fmt("%dd%hh"),
        Ok(vec![
            FormatCmd::JustText(""),
            FormatCmd::NextByte(ByteFmt::Dec),
            FormatCmd::JustText("d"),
            FormatCmd::NextByte(ByteFmt::Hex),
            FormatCmd::JustText("h"),
        ])
    );
}

#[test]
fn compiling_twice_gives_the_same_commands() {
    for template in ["", "abc", "%d,", "a%hb%bc", "%x", "%", "é%d"] {
        assert_eq!(parse_fmt(template), parse_fmt(template));
    }
}

#[test]
fn from_specifier_reads_the_three_specifiers() {
    assert_eq!(ByteFmt::from_specifier('b'), Some(ByteFmt::Bin));
    assert_eq!(ByteFmt::from_specifier('d'), Some(ByteFmt::Dec));
    assert_eq!(ByteFmt::from_specifier('h'), Some(ByteFmt::Hex));
    assert_eq!(ByteFmt::from_specifier('x'), None);
    assert_eq!(ByteFmt::from_specifier('%'), None);
}
