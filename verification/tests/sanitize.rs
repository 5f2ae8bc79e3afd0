use audiobook::sanitize::sanitize_for_tts;

#[test]
fn title_is_announced_before_the_content() {
    assert_eq!(sanitize_for_tts("第一章", "正文"), "第一章。\n正文");
}

#[test]
fn tags_and_escaped_spaces_become_spaces() {
    assert_eq!(sanitize_for_tts("t", "<p>a</p>&nbsp;<br/>b"), "t。\n a b");
    assert_eq!(sanitize_for_tts("t", "<p>\n第二行\n</p>尾"), "t。\n \n第二行\n 尾");
}

#[test]
fn brackets_that_are_no_tag_stay() {
    assert_eq!(sanitize_for_tts("t", "a <> b < c"), "t。\na <> b < c");
    assert_eq!(sanitize_for_tts("t", "a << b > c"), "t。\na c");
}

#[test]
fn a_tag_may_span_lines() {
    assert_eq!(sanitize_for_tts("t", "a<p\nclass='x'\n>b"), "t。\na b");
    assert_eq!(sanitize_for_tts("<a", "b>"), "");
}

#[test]
fn white_space_is_evened_out() {
    assert_eq!(sanitize_for_tts("t", "a\r\nb\n\n\nc\t\u{b}\u{c}d   e\u{3000}\u{3000}f"), "t。\na\nb\nc d e f");
    assert_eq!(sanitize_for_tts("  t  ", "  a  "), "t 。\n a");
    assert_eq!(sanitize_for_tts("t", "a\n \n b"), "t。\na\n \n b");
}

#[test]
fn replacing_does_not_put_an_escaped_space_together() {
    assert_eq!(sanitize_for_tts("t", "&nb&nbsp;sp;"), "t。\n&nb sp;");
    assert_eq!(sanitize_for_tts("t", "&nb<i>sp;"), "t。\n&nb sp;");
}

#[test]
fn a_dollar_sign_is_text() {
    assert_eq!(sanitize_for_tts("$1", "$0 <b>$name"), "$1。\n$0 $name");
}

#[test]
fn sanitized_text_is_clean() {
    let out = sanitize_for_tts(
        "<h1>题\u{3000}目</h1>",
        "\r\r\u{3000}<p>a&nbsp;&nbsp;b\t\tc</p>\n\n\n<<x>> \u{c}\u{b} &nbsp;",
    );
    assert_eq!(out.trim(), out);
    for bad in ["&nbsp;", "  ", "\n\n", "\u{3000}", "\r", "\t", "\u{c}", "\u{b}"] {
        assert!(!out.contains(bad), "{:?} in {:?}", bad, out);
    }
    assert!(!out.contains('<'));
}
