use tge::regex_collection::{get_mustache_regex_collection, gettext_values};

#[test]
fn test_mustache_gettext_0() {
    let regex_collection = get_mustache_regex_collection().unwrap();
    let mut count = 0;
    for _ in regex_collection.gettext().captures_iter("Hello World!") {
        count += 1;
    }
    assert_eq!(0, count);
}

#[test]
fn test_mustache_gettext_1() {
    let regex_collection = get_mustache_regex_collection().unwrap();
    let mut count = 0;
    for captures in regex_collection
        .gettext()
        .captures_iter("{{# gettext }} Some value {{/ gettext }}")
    {
        if let Some(value) = captures.name("value") {
            assert_eq!(" Some value ", value.as_str());
            count += 1;
        }
    }
    assert_eq!(1, count);
}

#[test]
fn test_mustache_gettext_2() {
    let regex_collection = get_mustache_regex_collection().unwrap();
    let mut count = 0;
    for captures in regex_collection
        .gettext()
        .captures_iter("{{# gettext }}Some value{{/ gettext }}")
    {
        if let Some(value) = captures.name("value") {
            assert_eq!("Some value", value.as_str());
            count += 1;
        }
    }
    assert_eq!(1, count);
}

#[test]
fn test_mustache_gettext_3() {
    let regex_collection = get_mustache_regex_collection().unwrap();
    let mut count = 0;
    for _ in regex_collection
        .gettext()
        .captures_iter("{{# not-gettext }} Some value {{/ not-gettext }}")
    {
        count += 1;
    }
    assert_eq!(0, count);
}

#[test]
fn test_mustache_gettext_6() {
    let regex_collection = get_mustache_regex_collection().unwrap();
    let mut count = 0;
    for captures in regex_collection
        .gettext()
        .captures_iter("{{#gettext}}Some value{{/gettext}}")
    {
        if let Some(value) = captures.name("value") {
            assert_eq!("Some value", value.as_str());
            count += 1;
        }
    }
    assert_eq!(1, count);
}

#[test]
fn test_mustache_gettext_7() {
    let regex_collection = get_mustache_regex_collection().unwrap();
    let mut count = 0;
    for captures in regex_collection
        .gettext()
        .captures_iter("{{#gettext }}Some value{{/ gettext}}")
    {
        if let Some(value) = captures.name("value") {
            assert_eq!("Some value", value.as_str());
            count += 1;
        }
    }
    assert_eq!(1, count);
}

#[test]
fn test_mustache_gettext_8() {
    let regex_collection = get_mustache_regex_collection().unwrap();
    let mut count = 0;
    for captures in regex_collection
        .gettext()
        .captures_iter("{{# gettext}}Some value{{/gettext }}")
    {
        if let Some(value) = captures.name("value") {
            assert_eq!("Some value", value.as_str());
            count += 1;
        }
    }
    assert_eq!(1, count);
}

#[test]
fn gettext_values_returns_the_captured_group_not_the_haystack() {
    let rc = get_mustache_regex_collection().unwrap();
    let hay = "<p>{{#gettext}}One{{/gettext}} and {{# gettext }} Two {{/ gettext }}</p>";
    let values = gettext_values(&rc, hay);
    assert_eq!(values, vec![Some("One".to_string()), Some(" Two ".to_string())]);
}

#[test]
fn gettext_values_stops_at_the_first_closing_tag() {
    let rc = get_mustache_regex_collection().unwrap();
    let hay = "{{#gettext}}a{{/gettext}}b{{/gettext}}";
    assert_eq!(gettext_values(&rc, hay), vec![Some("a".to_string())]);
}

#[test]
fn gettext_values_does_not_cross_lines() {
    let rc = get_mustache_regex_collection().unwrap();
    let hay = "{{#gettext}}a\nb{{/gettext}}";
    assert_eq!(gettext_values(&rc, hay), vec![]);
}

#[test]
fn gettext_pattern_compiles() {
    assert!(get_mustache_regex_collection().is_ok());
}
