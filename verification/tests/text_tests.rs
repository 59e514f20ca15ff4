use pruner::textops;

#[test]
fn column_counts_bytes_since_last_newline() {
    let buf = b"abc\ndefgh".to_vec();
    assert_eq!(textops::column_for_byte(&buf, 0), 0);
    assert_eq!(textops::column_for_byte(&buf, 3), 3);
    assert_eq!(textops::column_for_byte(&buf, 4), 0);
    assert_eq!(textops::column_for_byte(&buf, 7), 3);
    // clamped to the buffer length
    assert_eq!(textops::column_for_byte(&buf, 99), 5);
}

#[test]
fn min_leading_indent_ignores_blank_lines() {
    assert_eq!(textops::min_leading_indent(&b"    a\n\n  b\n".to_vec()), 2);
    assert_eq!(textops::min_leading_indent(&b"   \n    x\n".to_vec()), 4);
    assert_eq!(textops::min_leading_indent(&b"\n \n".to_vec()), 0);
    assert_eq!(textops::min_leading_indent(&b"".to_vec()), 0);
    assert_eq!(textops::min_leading_indent(&b"  a\n b".to_vec()), 1);
}

#[test]
fn strip_takes_only_what_lines_have() {
    let out = textops::strip_leading_indent(&b"    a\n  b\nc\n".to_vec(), 3);
    assert_eq!(out, b" a\nb\nc\n".to_vec());
    // indent zero leaves the text alone
    let out = textops::strip_leading_indent(&b"  a".to_vec(), 0);
    assert_eq!(out, b"  a".to_vec());
}

#[test]
fn offset_skips_blank_lines_and_final_newline() {
    let mut buf = b"a\nb\n\nc\n".to_vec();
    textops::offset_lines(&mut buf, 2);
    assert_eq!(buf, b"a\n  b\n\n  c\n".to_vec());
    let mut buf = b"a\n\rb".to_vec();
    textops::offset_lines(&mut buf, 1);
    assert_eq!(buf, b"a\n\rb".to_vec());
}

#[test]
fn trim_preserves_a_single_newline_when_asked() {
    let mut buf = b"abc\r\n\n".to_vec();
    textops::trim_trailing_whitespace(&mut buf, true);
    assert_eq!(buf, b"abc\n".to_vec());

    let mut buf = b"abc\r\n\n".to_vec();
    textops::trim_trailing_whitespace(&mut buf, false);
    assert_eq!(buf, b"abc".to_vec());

    // nothing removed: nothing appended
    let mut buf = b"abc".to_vec();
    textops::trim_trailing_whitespace(&mut buf, true);
    assert_eq!(buf, b"abc".to_vec());
}

#[test]
fn reindent_then_dedent_round_trips() {
    // the round trip that the library proves in general, on concrete values
    let t = b"a\n  b\nc\n".to_vec();
    let mut widened = t.clone();
    textops::offset_lines(&mut widened, 4);
    let back = textops::strip_leading_indent(&widened, 4);
    assert_eq!(back, t);
}

#[test]
fn escape_chars_sort_longest_first_then_lexicographic() {
    let out = pruner::escape::sort_escape_chars(vec![
        b"<".to_vec(),
        b"<<".to_vec(),
        b"b".to_vec(),
        b"a".to_vec(),
    ]);
    assert_eq!(
        out,
        vec![b"<<".to_vec(), b"<".to_vec(), b"a".to_vec(), b"b".to_vec()]
    );
}

#[test]
fn unescape_escape_round_trip() {
    let tokens = vec![b"\"".to_vec()];
    let text = b"say \\\"hi\\\" now".to_vec();
    let unescaped = pruner::escape::unescape_text(&text, &tokens);
    assert_eq!(unescaped, b"say \"hi\" now".to_vec());
    let escaped = pruner::escape::escape_text(&unescaped, &tokens);
    assert_eq!(escaped, text);
}

#[test]
fn empty_escape_set_is_identity() {
    let tokens: Vec<Vec<u8>> = Vec::new();
    let text = b"\\a b \\".to_vec();
    assert_eq!(pruner::escape::unescape_text(&text, &tokens), text);
    assert_eq!(pruner::escape::escape_text(&text, &tokens), text);
}

#[test]
fn replace_all_is_left_to_right_non_overlapping() {
    let out = pruner::escape::replace_all(&b"aaa".to_vec(), &b"aa".to_vec(), &b"b".to_vec());
    assert_eq!(out, b"ba".to_vec());
}
