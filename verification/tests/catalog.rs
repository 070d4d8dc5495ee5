use tge::extractor::{
    collect_captured_messages, extract_from_file_content, extract_messages, format_entry,
    join_entries, render_messages, MessageSet,
};
use tge::regex_collection::get_mustache_regex_collection;
use tge::text::{char_is_whitespace, chars_lt, escape_quotes_str, to_chars, trim_str};

/// A template with two gettext tags.
const TEMPLATE_WITH_TWO_TAGS: &str = "<h1>{{# gettext }} Page not found {{/ gettext }}</h1>\n<p>{{#gettext}} You may want to return to <a href=\"/\">home page</a>. {{/gettext}}</p>\n";

/// A template without any gettext tag.
const TEMPLATE_WITHOUT_TAGS: &str = "<h1>{{title}}</h1>\n<p>{{#items}}{{name}}{{/items}}</p>\n";

fn set_of(messages: &[&str]) -> MessageSet {
    let mut set = MessageSet::new();
    for m in messages {
        set.insert(m.to_string());
    }
    set
}

#[test]
fn test_write_messages_0() {
    let messages = set_of(&["Some value"]);
    assert_eq!(render_messages(&messages), "msgid \"Some value\"\nmsgstr \"\"\n");
}

#[test]
fn test_write_messages_1() {
    let messages = set_of(&[
        "Page not found",
        "You may want to return to <a href=\"/\">home page</a>.",
    ]);
    assert_eq!(
        render_messages(&messages),
        "msgid \"Page not found\"\nmsgstr \"\"\n\nmsgid \"You may want to return to <a href=\\\"/\\\">home page</a>.\"\nmsgstr \"\"\n"
    );
}

#[test]
fn test_extract() {
    let rc = get_mustache_regex_collection().unwrap();
    let contents = vec![
        TEMPLATE_WITH_TWO_TAGS.to_string(),
        TEMPLATE_WITH_TWO_TAGS.to_string(),
        TEMPLATE_WITHOUT_TAGS.to_string(),
        "{{#gettext}}Some value{{/gettext}}".to_string(),
    ];
    let messages = extract_messages(&contents, &rc);
    assert_eq!(
        render_messages(&messages),
        "msgid \"Page not found\"\nmsgstr \"\"\n\nmsgid \"Some value\"\nmsgstr \"\"\n\nmsgid \"You may want to return to <a href=\\\"/\\\">home page</a>.\"\nmsgstr \"\"\n"
    );
}

#[test]
fn test_mustache_gettext_4() {
    let expected = vec![
        " Page not found ",
        " You may want to return to <a href=\"/\">home page</a>. ",
    ];
    let regex_collection = get_mustache_regex_collection().unwrap();
    let mut count = 0;
    for captures in regex_collection.gettext().captures_iter(TEMPLATE_WITH_TWO_TAGS) {
        if let Some(value) = captures.name("value") {
            assert_eq!(expected[count], value.as_str());
            count += 1;
        }
    }
    assert_eq!(2, count);
}

#[test]
fn test_mustache_gettext_5() {
    let regex_collection = get_mustache_regex_collection().unwrap();
    let mut count = 0;
    for _ in regex_collection.gettext().captures_iter(TEMPLATE_WITHOUT_TAGS) {
        count += 1;
    }
    assert_eq!(0, count);
}

#[test]
fn empty_set_renders_empty_text() {
    assert_eq!(render_messages(&MessageSet::new()), "");
}

#[test]
fn rendering_does_not_depend_on_insertion_order() {
    let a = set_of(&["b", "a", "c\"d", "a b"]);
    let b = set_of(&["a b", "c\"d", "a", "b", "a"]);
    assert_eq!(render_messages(&a), render_messages(&b));
}

#[test]
fn entries_are_sorted_as_formatted_lines() {
    // "a b" comes before "a": after the common "msgid \"a", a space sorts
    // before the closing quote.
    let text = render_messages(&set_of(&["a", "a b"]));
    assert_eq!(text, "msgid \"a b\"\nmsgstr \"\"\n\nmsgid \"a\"\nmsgstr \"\"\n");
}

#[test]
fn message_set_keeps_each_message_once() {
    let mut set = MessageSet::new();
    assert!(set.insert("x".to_string()));
    assert!(!set.insert("x".to_string()));
    assert!(set.insert("y".to_string()));
    assert_eq!(set.len(), 2);
    assert!(set.contains(&"x".to_string()));
    assert!(!set.contains(&"z".to_string()));
}

#[test]
fn collecting_trims_and_skips_missing_groups() {
    let mut set = MessageSet::new();
    let values = vec![Some("  hi ".to_string()), None, Some("hi".to_string())];
    collect_captured_messages(&values, &mut set);
    assert_eq!(set.len(), 1);
    assert!(set.contains(&"hi".to_string()));
    collect_captured_messages(&values, &mut set);
    assert_eq!(set.len(), 1);
}

#[test]
fn extracting_twice_from_one_content_adds_nothing() {
    let rc = get_mustache_regex_collection().unwrap();
    let mut set = MessageSet::new();
    extract_from_file_content(TEMPLATE_WITH_TWO_TAGS, &mut set, &rc);
    assert_eq!(set.len(), 2);
    extract_from_file_content(TEMPLATE_WITH_TWO_TAGS, &mut set, &rc);
    assert_eq!(set.len(), 2);
    assert!(set.contains(&"Page not found".to_string()));
}

#[test]
fn entry_escapes_quotes() {
    assert_eq!(format_entry("say \"hi\""), "msgid \"say \\\"hi\\\"\"\nmsgstr \"\"\n");
    assert_eq!(escape_quotes_str("\"\""), "\\\"\\\"");
    assert_eq!(escape_quotes_str("no quotes \\"), "no quotes \\");
    assert_ne!(escape_quotes_str("\\\""), escape_quotes_str("\""));
}

#[test]
fn trim_matches_std_trim() {
    for s in ["", "   ", " a ", "\t\nab c\r\n", "\u{3000}x\u{2029}", "\u{85}y\u{a0}", "a\u{200b}"] {
        assert_eq!(trim_str(s), s.trim());
        assert_eq!(trim_str(&trim_str(s)), trim_str(s));
    }
}

#[test]
fn whitespace_matches_std() {
    for c in ['\t', '\n', '\u{b}', '\u{c}', '\r', ' ', '\u{85}', '\u{a0}', '\u{1680}', '\u{2000}', '\u{200a}', '\u{2028}', '\u{2029}', '\u{202f}', '\u{205f}', '\u{3000}', 'a', '\u{200b}', '\u{180e}', '0'] {
        assert_eq!(char_is_whitespace(c), c.is_whitespace());
    }
}

#[test]
fn char_order_is_string_order() {
    let pairs = [("a", "b"), ("a", "ab"), ("", "a"), ("é", "z"), ("z", "é"), ("b", "a"), ("x", "x")];
    for (a, b) in pairs {
        assert_eq!(chars_lt(&to_chars(a), &to_chars(b)), a.to_string() < b.to_string());
    }
}

#[test]
fn join_puts_newline_between_entries() {
    let entries = vec!["a\n".to_string(), "b\n".to_string()];
    assert_eq!(join_entries(&entries), "a\n\nb\n");
    assert_eq!(join_entries(&vec![]), "");
}

#[test]
fn distinct_messages_keep_distinct_entries() {
    let text = render_messages(&set_of(&["a\"", "a\\\"", "a"]));
    assert_eq!(text.matches("msgid ").count(), 3);
    assert_eq!(
        text,
        "msgid \"a\"\nmsgstr \"\"\n\nmsgid \"a\\\"\"\nmsgstr \"\"\n\nmsgid \"a\\\\\"\"\nmsgstr \"\"\n"
    );
}

#[test]
fn extraction_ignores_order_and_repetition_of_contents() {
    let rc = get_mustache_regex_collection().unwrap();
    let a = "{{#gettext}} A {{/gettext}}".to_string();
    let b = "x {{# gettext }}B{{/ gettext }} y {{#gettext}}A{{/gettext}}".to_string();
    let one = extract_messages(&vec![a.clone(), b.clone()], &rc);
    let two = extract_messages(&vec![b.clone(), a.clone(), b.clone()], &rc);
    assert_eq!(one.len(), 2);
    assert_eq!(render_messages(&one), render_messages(&two));
}

#[test]
fn catalog_reads_back_to_its_messages() {
    let messages = ["Page not found", "say \"hi\"", "", "Zed"];
    let text = render_messages(&set_of(&messages));
    let lines: Vec<&str> = text.split('\n').collect();
    assert_eq!(lines.len(), 3 * messages.len());
    let mut read: Vec<String> = Vec::new();
    for (i, line) in lines.iter().enumerate() {
        match i % 3 {
            0 => {
                assert!(line.starts_with("msgid \"") && line.ends_with('"'));
                read.push(line[7..line.len() - 1].replace("\\\"", "\""));
            }
            1 => assert_eq!(*line, "msgstr \"\""),
            _ => assert_eq!(*line, ""),
        }
    }
    read.sort();
    let mut expected: Vec<String> = messages.iter().map(|m| m.to_string()).collect();
    expected.sort();
    assert_eq!(read, expected);
}
