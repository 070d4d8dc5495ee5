//! The compiled pattern that finds gettext tags in mustache templates, and
//! the trusted boundary to the `regex` crate.

use vstd::prelude::*;

use regex::Regex;

verus! {

/// `regex::Regex`, a compiled regular expression; opaque here.
#[verifier::external_type_specification]
#[verifier::external_body]
pub struct ExRegex(regex::Regex);

/// `regex::Error`, the reason a pattern did not compile; opaque here.
#[verifier::external_type_specification]
#[verifier::external_body]
pub struct ExRegexError(regex::Error);

/// The mustache gettext tag: `{{#gettext}}` and `{{/gettext}}`, each with
/// optional spaces around the word, around the message, captured lazily
/// (up to the first closing tag) as the group `value`.
pub const GETTEXT_PATTERN: &'static str = "\\{\\{# *gettext *}}(?<value>.*?)\\{\\{/ *gettext *}}";

/// The name of the capture group that holds a message.
pub const VALUE_GROUP: &'static str = "value";

/// Whether `regex::Regex::new` accepts `pattern` (it is valid syntax and
/// compiles within the default size limit).
pub uninterp spec fn regex_compiles(pattern: Seq<char>) -> bool;

/// The values of the group named `group` in each successive match, left to
/// right and without overlap, of the regex that `regex::Regex::new(pattern)`
/// compiles, searched in `haystack` with `captures_iter`; `None` for a match
/// in which the group took no part.
pub uninterp spec fn regex_group_values(
    pattern: Seq<char>,
    group: Seq<char>,
    haystack: Seq<char>,
) -> Seq<Option<Seq<char>>>;

/// The views of a sequence of optional strings.
pub open spec fn option_views(values: Seq<Option<String>>) -> Seq<Option<Seq<char>>> {
    values.map_values(
        |o: Option<String>|
            match o {
                Some(s) => Some(s@),
                None => None,
            },
    )
}

/// The messages, untrimmed, of the gettext tags in `haystack`, in order.
pub open spec fn tag_values(haystack: Seq<char>) -> Seq<Option<Seq<char>>> {
    regex_group_values(GETTEXT_PATTERN@, VALUE_GROUP@, haystack)
}

/// Calls `regex::Regex::new` on `pattern` and holds the regex it compiled
/// in a collection labelled with `pattern`. Trusted: success depends on the
/// pattern alone (the default configuration is fixed), which the name
/// `regex_compiles` stands for, and the label is the pattern the regex was
/// compiled from. No other item of the library yields a `Regex` or a
/// collection.
#[verifier::external_body]
fn compile_collection(pattern: &str) -> (res: Result<RegexCollection, regex::Error>)
    requires
        pattern@ == GETTEXT_PATTERN@,
    ensures
        res is Ok <==> regex_compiles(pattern@),
        res matches Ok(c) ==> c@ == pattern@,
{
    Regex::new(pattern).map(|gettext| RegexCollection { gettext, pattern: Ghost(pattern@) })
}

/// Calls `regex::Regex::captures_iter` on the regex of `collection` and, for
/// each match in order, `regex::Captures::name(group)` and
/// `regex::Match::as_str`. Trusted: the regex of a collection is the one
/// that `regex::Regex::new` compiled from the pattern `collection@` (only
/// `compile_collection` builds a collection, and it labels the regex with
/// its pattern), so the values are a function of that pattern, the group name and the
/// haystack, which the name `regex_group_values` stands for.
#[verifier::external_body]
fn capture_group_values(collection: &RegexCollection, haystack: &str, group: &str) -> (res: Vec<
    Option<String>,
>)
    ensures
        option_views(res@) == regex_group_values(collection@, group@, haystack@),
{
    collection.gettext.captures_iter(haystack).map(|caps| caps.name(group).map(|m| m.as_str().to_string())).collect()
}

/// The regular expressions used on mustache templates.
pub struct RegexCollection {
    /// Finds gettext tags; the message is the group `value`.
    gettext: Regex,
    /// The pattern `gettext` was compiled from.
    pattern: Ghost<Seq<char>>,
}

impl RegexCollection {
    #[verifier::type_invariant]
    spec fn compiled_from_gettext_pattern(self) -> bool {
        self.pattern@ == GETTEXT_PATTERN@
    }

    /// The regex that finds gettext tags; the message is the group `value`.
    pub fn gettext(&self) -> (res: &Regex) {
        &self.gettext
    }
}

impl View for RegexCollection {
    type V = Seq<char>;

    /// The pattern the regexes were compiled from.
    closed spec fn view(&self) -> Seq<char> {
        self.pattern@
    }
}

/// Why the regular expressions could not be built.
#[derive(Debug)]
pub enum PatternError {
    /// The gettext pattern was refused by the regex engine, for the reason
    /// given.
    Invalid(regex::Error),
}

/// Compiles the mustache gettext pattern.
pub fn get_mustache_regex_collection() -> (res: Result<RegexCollection, PatternError>)
    ensures
        res is Ok <==> regex_compiles(GETTEXT_PATTERN@),
        res matches Ok(c) ==> c@ == GETTEXT_PATTERN@,
        res matches Err(e) ==> e is Invalid,
{
    match compile_collection(GETTEXT_PATTERN) {
        Ok(collection) => Ok(collection),
        Err(err) => Err(PatternError::Invalid(err)),
    }
}

/// The value of the group `value` of every match of the gettext pattern in
/// `haystack`, in order; `None` where the group took no part in a match.
pub fn gettext_values(collection: &RegexCollection, haystack: &str) -> (res: Vec<Option<String>>)
    ensures
        option_views(res@) == tag_values(haystack@),
{
    proof {
        use_type_invariant(collection);
    }
    capture_group_values(collection, haystack, VALUE_GROUP)
}

} // verus!
