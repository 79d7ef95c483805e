use book::strs::is_whitespace;
use book::text::{char_columns, is_chapter_heading, split_chapters, strip_html, wrap_text};

#[test]
fn html_blocks_become_lines() {
    assert_eq!(strip_html("<p>Hello</p><p>World &amp; you</p>"), "Hello\n\nWorld & you\n");
    assert_eq!(strip_html("<DIV>a<br/>b</DIV>"), "a\nb\n");
    assert_eq!(strip_html("<span>in</span>line"), "inline\n");
}

#[test]
fn blank_runs_fold_and_lines_are_trimmed() {
    assert_eq!(strip_html("\n\n  a  \n\n\n\n b\t\n"), "a\n\nb\n");
    assert_eq!(strip_html(""), "");
    assert_eq!(strip_html("   \n \n"), "");
}

#[test]
fn scripts_and_styles_are_dropped() {
    assert_eq!(strip_html("a<script>var x = 1;</script>b"), "ab\n");
    assert_eq!(strip_html("<style>p{}</STYLE>c"), "c\n");
    assert_eq!(strip_html("<script></script>y"), "y\n");
    assert_eq!(strip_html("<p>x</p><script>var a=1;</script>y"), "x\ny\n");
    assert_eq!(strip_html("x<script>never closed"), "x\n");
    assert_eq!(strip_html("x<script>a</script"), "x\n");
}

#[test]
fn character_references_are_decoded() {
    assert_eq!(strip_html("&#65;&#x42;&#X43;&lt;&gt;&quot;&apos;"), "ABC<>\"'\n");
    assert_eq!(strip_html("a&nbsp;b&mdash;c&ndash;d&hellip;"), "a b\u{2014}c\u{2013}d\u{2026}\n");
    assert_eq!(strip_html("&ldquo;q&rdquo;&lsquo;s&rsquo;"), "\u{201c}q\u{201d}\u{2018}s\u{2019}\n");
    assert_eq!(strip_html("&unknown;x"), "x\n");
    assert_eq!(strip_html("&;x"), "&x\n");
    assert_eq!(strip_html("a & b"), "a & b\n");
    assert_eq!(strip_html("&#xD800;&#1114112;z"), "z\n");
    // a reference name stops after 11 characters; the rest is text
    assert_eq!(strip_html("&#99999999999;z"), "9;z\n");
    assert_eq!(strip_html("&#x4e2d;"), "\u{4e2d}\n");
}

#[test]
fn whitespace_matches_std() {
    for code in 0u32..0x110000 {
        if let Some(c) = char::from_u32(code) {
            assert_eq!(is_whitespace(c), c.is_whitespace(), "{code:x}");
        }
    }
}

#[test]
fn lines_wrap_at_display_width() {
    assert_eq!(wrap_text("abcdef", 4), vec!["abcd", "ef"]);
    assert_eq!(wrap_text("中文字符", 4), vec!["中文", "字符"]);
    assert_eq!(wrap_text("中文字", 5), vec!["中文", "字"]);
    assert_eq!(wrap_text("", 10), vec![""]);
    assert_eq!(wrap_text("a\n\nb", 0), vec!["a", "", "b"]);
    assert_eq!(wrap_text("ab  \r\ncd", 10), vec!["ab", "cd"]);
    // a character wider than the width gets a row of its own
    assert_eq!(wrap_text("中a", 1), vec!["中", "a"]);
}

#[test]
fn chapter_headings_are_recognised() {
    assert!(is_chapter_heading("第一章 开始"));
    assert!(is_chapter_heading("第12回"));
    assert!(is_chapter_heading("  第三卷  "));
    assert!(is_chapter_heading("Chapter 3"));
    assert!(is_chapter_heading("CHAPTER ONE"));
    assert!(is_chapter_heading("楔子"));
    assert!(is_chapter_heading("番外 一"));
    assert!(!is_chapter_heading("第1章第1段的内容"));
    assert!(!is_chapter_heading("第章"));
    assert!(!is_chapter_heading("第"));
    assert!(!is_chapter_heading("chapters"));
    assert!(!is_chapter_heading(&format!("第一章 {}", "长".repeat(40))));
}

#[test]
fn text_splits_at_headings() {
    let chapters = split_chapters("前言\n第一章 开始\n内容\n第二章\n更多\n");
    assert_eq!(
        chapters,
        vec![
            ("前言".to_string(), "前言\n".to_string()),
            ("第一章 开始".to_string(), "第一章 开始\n内容\n".to_string()),
            ("第二章".to_string(), "第二章\n更多\n".to_string()),
        ]
    );
}

#[test]
fn blank_text_before_a_heading_is_dropped() {
    let chapters = split_chapters("\n  \n第一章\n正文");
    assert_eq!(chapters, vec![("第一章".to_string(), "第一章\n正文\n".to_string())]);
}

#[test]
fn empty_text_is_one_untitled_chapter() {
    assert_eq!(split_chapters(""), vec![("第 1 节".to_string(), String::new())]);
    assert_eq!(split_chapters("\n\n"), vec![("第 1 节".to_string(), "\n\n".to_string())]);
}

#[test]
fn long_first_lines_make_short_titles() {
    let line = "一二三四五六七八九十一二三四五六七八九十一二三四五六七八九十";
    let chapters = split_chapters(line);
    assert_eq!(chapters[0].0.chars().count(), 24);
    assert!(line.starts_with(&chapters[0].0));
}

#[test]
fn stripping_its_own_output_changes_nothing() {
    for html in [
        "<p>Hello</p><p>World &#33; you</p>",
        "\n\n  a  \n\n\n\n b\t\n",
        "<div>x<br>y</div><script>z</script>w",
        "line\r\n\r\n\r\nnext &mdash; end",
    ] {
        let once = strip_html(html);
        assert!(!once.contains('<') && !once.contains('&'), "{once:?}");
        assert_eq!(strip_html(&once), once, "{html:?}");
    }
}

#[test]
fn headings_ignore_surrounding_white_space() {
    for line in ["第一章 开始", "Chapter 3", "楔子", "第1章第1段的内容", "chapters", "第"] {
        let padded = format!(" \t{}\u{3000}", line);
        assert_eq!(is_chapter_heading(&padded), is_chapter_heading(line), "{line:?}");
        assert_eq!(is_chapter_heading(line.trim()), is_chapter_heading(line), "{line:?}");
    }
}

#[test]
fn characters_take_their_display_width() {
    assert_eq!(char_columns('a'), 1);
    assert_eq!(char_columns('~'), 1);
    assert_eq!(char_columns('\t'), 0);
    assert_eq!(char_columns('\u{7f}'), 0);
    assert_eq!(char_columns('\u{85}'), 0);
    assert_eq!(char_columns('中'), 2);
}
