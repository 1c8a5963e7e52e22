use rustic::lines::{concat_lines, split_lines};
use rustic::parse::{
    ends_continued, feed_line, key_length, logical_lines, parse_entry, skip_whitespace,
    split_key_value, value_offset,
};

fn chars(s: &str) -> Vec<char> {
    s.chars().collect()
}

fn strings(v: &[&str]) -> Vec<String> {
    v.iter().map(|s| s.to_string()).collect()
}

#[test]
fn split_lines_keeps_line_feeds() {
    assert_eq!(split_lines("a\nb\r\nc"), strings(&["a\n", "b\r\n", "c"]));
    assert_eq!(split_lines("a\n"), strings(&["a\n"]));
    assert_eq!(split_lines("\n\n"), strings(&["\n", "\n"]));
    assert_eq!(split_lines(""), Vec::<String>::new());
    assert_eq!(split_lines("é€\n😀"), strings(&["é€\n", "😀"]));
}

#[test]
fn concat_lines_joins() {
    assert_eq!(concat_lines(&strings(&["a\n", "b\r\n", "c"])), "a\nb\r\nc");
    assert_eq!(concat_lines(&Vec::new()), "");
}

#[test]
fn concat_undoes_split() {
    let text = "k=v\n\n# c\r\nlast";
    assert_eq!(concat_lines(&split_lines(text)), text);
}

#[test]
fn skip_whitespace_stops_at_text() {
    let v = chars(" \t\u{a0}x y");
    assert_eq!(skip_whitespace(&v, 0), 3);
    assert_eq!(skip_whitespace(&v, 3), 3);
    assert_eq!(skip_whitespace(&v, 4), 5);
    assert_eq!(skip_whitespace(&chars("   "), 0), 3);
    assert_eq!(skip_whitespace(&chars(""), 0), 0);
}

#[test]
fn odd_trailing_backslashes_continue() {
    assert!(ends_continued(&chars("a\\")));
    assert!(!ends_continued(&chars("a\\\\")));
    assert!(ends_continued(&chars("a\\\\\\")));
    assert!(!ends_continued(&chars("a")));
    assert!(!ends_continued(&chars("")));
    assert!(ends_continued(&chars("\\")));
    assert!(!ends_continued(&chars("\\a")));
}

#[test]
fn key_ends_at_first_unescaped_delimiter() {
    assert_eq!(key_length(&chars("key = value")), 3);
    assert_eq!(key_length(&chars("key=value")), 3);
    assert_eq!(key_length(&chars("key:value")), 3);
    assert_eq!(key_length(&chars("key value")), 3);
    assert_eq!(key_length(&chars("key")), 3);
    assert_eq!(key_length(&chars("=value")), 0);
    assert_eq!(key_length(&chars("a\\=b=c")), 4);
    assert_eq!(key_length(&chars("a\\ b c")), 4);
    assert_eq!(key_length(&chars("a\\\\=b")), 3);
    assert_eq!(key_length(&chars("é€=x")), 2);
}

#[test]
fn value_starts_behind_one_separator() {
    assert_eq!(value_offset(&chars("key = value")), 6);
    assert_eq!(value_offset(&chars("key=value")), 4);
    assert_eq!(value_offset(&chars("key   value")), 6);
    assert_eq!(value_offset(&chars("key == value")), 5);
    assert_eq!(value_offset(&chars("key")), 3);
    assert_eq!(value_offset(&chars("key =")), 5);
}

#[test]
fn split_gives_raw_key_and_value() {
    assert_eq!(
        split_key_value("a\\=b = c\\td"),
        ("a\\=b".to_string(), "c\\td".to_string())
    );
    assert_eq!(split_key_value("k"), ("k".to_string(), "".to_string()));
    assert_eq!(split_key_value("k:=v"), ("k".to_string(), "=v".to_string()));
    assert_eq!(split_key_value("k v = w"), ("k".to_string(), "v = w".to_string()));
}

#[test]
fn key_equals_value_line() {
    assert_eq!(
        parse_entry(&chars("key = value")),
        ("key".to_string(), "value".to_string())
    );
}

#[test]
fn entry_with_other_separators() {
    assert_eq!(parse_entry(&chars("key:value")), ("key".to_string(), "value".to_string()));
    assert_eq!(parse_entry(&chars("key value")), ("key".to_string(), "value".to_string()));
    assert_eq!(parse_entry(&chars("key \t: \tvalue")), ("key".to_string(), "value".to_string()));
}

#[test]
fn entry_without_separator_has_empty_value() {
    assert_eq!(parse_entry(&chars("lonely")), ("lonely".to_string(), "".to_string()));
    assert_eq!(parse_entry(&chars("lonely   ")), ("lonely".to_string(), "".to_string()));
}

#[test]
fn entry_escapes_are_read() {
    assert_eq!(
        parse_entry(&chars("a\\ b\\=c = x\\ty\\\\")),
        ("a b=c".to_string(), "x\ty\\".to_string())
    );
    assert_eq!(parse_entry(&chars("\\#k=v")), ("#k".to_string(), "v".to_string()));
    assert_eq!(parse_entry(&chars("a\\\\=b")), ("a\\".to_string(), "b".to_string()));
}

#[test]
fn entry_value_keeps_inner_and_trailing_whitespace() {
    assert_eq!(parse_entry(&chars("k = a b  ")), ("k".to_string(), "a b  ".to_string()));
}

#[test]
fn feed_complete_line() {
    let mut pending = Vec::new();
    assert_eq!(feed_line(&mut pending, "  a=1\n"), Some(chars("a=1")));
    assert!(pending.is_empty());
}

#[test]
fn feed_strips_each_terminator() {
    let mut pending = Vec::new();
    assert_eq!(feed_line(&mut pending, "a=1\r\n"), Some(chars("a=1")));
    assert_eq!(feed_line(&mut pending, "a=2\r"), Some(chars("a=2")));
    assert_eq!(feed_line(&mut pending, "a=3"), Some(chars("a=3")));
    assert_eq!(feed_line(&mut pending, "a=4\n\n"), Some(chars("a=4\n")));
}

#[test]
fn feed_drops_comments_and_blank_lines() {
    let mut pending = Vec::new();
    assert_eq!(feed_line(&mut pending, "# comment\n"), None);
    assert!(pending.is_empty());
    assert_eq!(feed_line(&mut pending, "   ! comment"), None);
    assert!(pending.is_empty());
    assert_eq!(feed_line(&mut pending, "\n"), None);
    assert_eq!(feed_line(&mut pending, "   \t \r\n"), None);
    assert_eq!(feed_line(&mut pending, ""), None);
    assert!(pending.is_empty());
}

#[test]
fn feed_continued_line_stays_pending() {
    let mut pending = Vec::new();
    assert_eq!(feed_line(&mut pending, "a=1\\\n"), None);
    assert_eq!(pending, chars("a=1"));
    assert_eq!(feed_line(&mut pending, "   23\n"), Some(chars("a=123")));
    assert!(pending.is_empty());
}

#[test]
fn feed_even_backslashes_do_not_continue() {
    let mut pending = Vec::new();
    assert_eq!(feed_line(&mut pending, "a=1\\\\\n"), Some(chars("a=1\\\\")));
    assert!(pending.is_empty());
    assert_eq!(feed_line(&mut pending, "a=1\\\\\\\n"), None);
    assert_eq!(pending, chars("a=1\\\\"));
}

#[test]
fn feed_mark_inside_continued_line_is_text() {
    let mut pending = chars("a=1");
    assert_eq!(feed_line(&mut pending, "#2\n"), Some(chars("a=1#2")));
}

#[test]
fn logical_lines_of_a_file() {
    let physical = strings(&[
        "# header\n",
        "\n",
        "a=1\\\n",
        "23\n",
        "b = 2\r\n",
        "! other\n",
        "c\\\\\n",
    ]);
    assert_eq!(logical_lines(&physical), strings(&["a=123", "b = 2", "c\\\\"]));
}

#[test]
fn logical_lines_drop_unfinished_continuation() {
    assert_eq!(logical_lines(&strings(&["a=1\n", "b=2\\\n"])), strings(&["a=1"]));
    assert_eq!(logical_lines(&strings(&["b=2\\"])), Vec::<String>::new());
}

#[test]
fn logical_lines_of_nothing() {
    assert_eq!(logical_lines(&Vec::new()), Vec::<String>::new());
}
