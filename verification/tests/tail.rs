use logtripwire::tail::{without_trailing_cr, TailBuffer};

#[test]
fn complete_lines_come_out_and_the_offset_advances() {
    let mut b = TailBuffer::at_offset(0);
    assert_eq!(b.feed(b"line one\nline two\n"), vec!["line one", "line two"]);
    assert_eq!(b.offset(), 18);
}

#[test]
fn a_partial_line_is_held_back_until_its_newline_arrives() {
    let mut b = TailBuffer::at_offset(0);
    assert_eq!(b.feed(b"no newline yet"), Vec::<String>::new());
    assert_eq!(
        b.feed(" \u{2014} now complete\n".as_bytes()),
        vec!["no newline yet \u{2014} now complete"]
    );
}

#[test]
fn crlf_endings_lose_their_carriage_returns() {
    let mut b = TailBuffer::at_offset(0);
    assert_eq!(b.feed(b"windows style\r\nanother\r\n"), vec!["windows style", "another"]);
    assert_eq!(b.feed(b"two returns\r\r\n\r\n"), vec!["two returns", ""]);
}

#[test]
fn feeding_nothing_gives_nothing_and_keeps_the_offset() {
    let mut b = TailBuffer::at_offset(9);
    assert_eq!(b.feed(b"one line\n"), vec!["one line"]);
    assert_eq!(b.feed(b""), Vec::<String>::new());
    assert_eq!(b.offset(), 18);
}

#[test]
fn a_multibyte_character_split_across_reads_comes_out_whole() {
    let bytes = "caf\u{e9} ok\n".as_bytes();
    let mut b = TailBuffer::at_offset(0);
    assert_eq!(b.feed(&bytes[..4]), Vec::<String>::new());
    assert_eq!(b.feed(&bytes[4..]), vec!["caf\u{e9} ok"]);
}

#[test]
fn invalid_utf8_is_replaced_not_refused() {
    let mut b = TailBuffer::at_offset(0);
    assert_eq!(b.feed(b"bad \xff byte\n"), vec!["bad \u{fffd} byte"]);
}

#[test]
fn chunk_boundaries_do_not_change_the_lines() {
    let text = b"alpha\nbeta\r\ngamma\n\ndelta";
    let mut whole = TailBuffer::at_offset(0);
    let all_at_once = whole.feed(text);
    for cut in 0..=text.len() {
        let mut split = TailBuffer::at_offset(0);
        let mut lines = split.feed(&text[..cut]);
        lines.extend(split.feed(&text[cut..]));
        assert_eq!(lines, all_at_once);
        assert_eq!(split.offset(), whole.offset());
    }
    assert_eq!(all_at_once, vec!["alpha", "beta", "gamma", ""]);
}

#[test]
fn only_trailing_carriage_returns_are_dropped() {
    assert_eq!(without_trailing_cr("a\rb\r\r"), "a\rb");
    assert_eq!(without_trailing_cr("\r\r"), "");
    assert_eq!(without_trailing_cr("plain"), "plain");
}

#[test]
fn valid_utf8_lines_come_out_as_their_own_text() {
    let mut b = TailBuffer::at_offset(0);
    assert_eq!(
        b.feed("ok\n\u{1f600} smile\r\n".as_bytes()),
        vec!["ok", "\u{1f600} smile"]
    );
}
