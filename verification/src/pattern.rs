//! Regular expressions, by way of the `regex` crate.

use regex::Regex;
use vstd::prelude::*;

use crate::normalize::{canonical, is_joint};
use crate::text::{ascii_digit, copy_of};
use crate::unicode::whitespace;

verus! {

/// Cuts a stem into fields: digit runs, ASCII letter runs, other letter runs,
/// and runs of whatever else there is.
pub const FIELD_PATTERN: &'static str = r"\d+|[A-Za-z]+|\p{Alphabetic}+|[^\p{Alphabetic}\p{Digit}]+";

/// An episode between `第` and `话` or `集`.
pub const ORDINAL_PATTERN: &'static str = r"第\s*(\d+(?:[-.]\d+)*)\s*[话集]";

/// An episode behind a season, as in `s01e02`.
pub const SEASON_PATTERN: &'static str = r"s\d+\s*e[p]?\s*(\d+(?:[-.]\d+)*)";

/// An episode behind `e` or `ep`.
pub const EPISODE_PATTERN: &'static str = r"e[p]?\s*(\d+(?:[-.]\d+)*)";

/// A bare number.
pub const BARE_PATTERN: &'static str = r"(\d+(?:[-.]\d+)*)";

/// A number with an optional revision behind it, as in `01v2`.
pub const NUMERIC_PATTERN: &'static str = r"^(?P<num>[\d.\-]+?)(?:v\d+)?$";

/// The patterns of this library.
pub open spec fn builtin_pattern(p: Seq<char>) -> bool {
    ||| p == FIELD_PATTERN@
    ||| p == ORDINAL_PATTERN@
    ||| p == SEASON_PATTERN@
    ||| p == EPISODE_PATTERN@
    ||| p == BARE_PATTERN@
    ||| p == NUMERIC_PATTERN@
}

/// The compiled regular expression of the `regex` crate.
#[verifier::external_type_specification]
#[verifier::external_body]
pub struct ExRegex(regex::Regex);

/// The pattern that `re` was compiled from, which `Regex::as_str` gives back.
pub uninterp spec fn regex_source(re: regex::Regex) -> Seq<char>;

/// Whether `Regex::new` accepts `pattern`.
pub uninterp spec fn regex_valid(pattern: Seq<char>) -> bool;

/// The texts of the matches that `Regex::find_iter` of `pattern` yields on `text`.
pub uninterp spec fn regex_finds(pattern: Seq<char>, text: Seq<char>) -> Seq<Seq<char>>;

/// The text of group `group` in what `Regex::captures` of `pattern` yields on
/// `text`: `None` where nothing matches or the group takes no part.
pub uninterp spec fn regex_group(pattern: Seq<char>, text: Seq<char>, group: nat) -> Option<
    Seq<char>,
>;

/// The characters of each string.
pub open spec fn views(v: Seq<String>) -> Seq<Seq<char>> {
    Seq::new(v.len(), |i: int| v[i]@)
}

/// The characters of a string that may be absent.
pub open spec fn opt_view(s: Option<String>) -> Option<Seq<char>> {
    match s {
        Some(t) => Some(t@),
        None => None,
    }
}

/// The characters of a slice that may be absent.
pub open spec fn opt_str(s: Option<&str>) -> Option<Seq<char>> {
    match s {
        Some(s) => Some(s@),
        None => None,
    }
}

/// Calls `Regex::new`. Whether it succeeds depends on the pattern alone, and it
/// does succeed on the patterns of this library; the result was compiled from
/// `pattern`. Nothing is said of the error.
#[verifier::external_body]
pub(crate) fn compile(pattern: &str) -> (r: Option<Regex>)
    ensures
        r is Some <==> regex_valid(pattern@),
        builtin_pattern(pattern@) ==> r is Some,
        r matches Some(re) ==> regex_source(re) == pattern@,
{
    Regex::new(pattern).ok()
}

/// Collects the texts that `Regex::find_iter` yields, in order. They depend on
/// the pattern and the text alone.
#[verifier::external_body]
pub(crate) fn find_all(re: &Regex, text: &str) -> (r: Vec<String>)
    ensures
        views(r@) == regex_finds(regex_source(*re), text@),
{
    re.find_iter(text).map(|m| m.as_str().to_string()).collect()
}

/// A character that a digit may be: an ASCII digit, or one of the decimal digits of other
/// scripts, none of which comes before U+0660 or is an ideograph.
pub open spec fn numeral(c: char) -> bool {
    ascii_digit(c) || ('\u{660}' <= c && !('\u{3400}' <= c <= '\u{9fff}'))
}

/// Digits with `-` or `.` between them, where `digit` says what a digit is.
pub open spec fn compound(s: Seq<char>, digit: spec_fn(char) -> bool) -> bool {
    &&& s.len() > 0
    &&& !is_joint(s[0])
    &&& !is_joint(s.last())
    &&& forall|i: int| 0 <= i < s.len() ==> is_joint(#[trigger] s[i]) || digit(s[i])
    &&& forall|i: int| 0 <= i < s.len() - 1 && is_joint(#[trigger] s[i]) ==> !is_joint(s[i + 1])
}

/// ASCII digits with `-` or `.` between them.
pub open spec fn ascii_number(s: Seq<char>) -> bool {
    compound(s, |c: char| ascii_digit(c))
}

/// The number `s` is what the bare pattern and the numeric pattern find in it, and the
/// other patterns for numbers find nothing in it.
pub open spec fn found_alone(s: Seq<char>) -> bool {
    &&& regex_group(ORDINAL_PATTERN@, s, 1) is None
    &&& regex_group(SEASON_PATTERN@, s, 1) is None
    &&& regex_group(EPISODE_PATTERN@, s, 1) is None
    &&& regex_group(BARE_PATTERN@, s, 1) == Some(s)
    &&& regex_group(NUMERIC_PATTERN@, s, 1) == Some(s)
}

/// What a pattern that marks an episode number finds: digits with `-` or `.` between them,
/// which are found alone, with the leading zeros of each component or without.
pub open spec fn marked_number(s: Seq<char>) -> bool {
    &&& compound(s, |c: char| numeral(c))
    &&& forall|i: int| 0 <= i < s.len() ==> !whitespace(#[trigger] s[i])
    &&& found_alone(s)
    &&& found_alone(canonical(s))
}

/// Takes one group out of `Regex::captures`. It depends on the pattern, the text
/// and the number of the group alone. Group 1 of the patterns that mark an episode number
/// is `\d+(?:[-.]\d+)*`, where `\d` stands for the decimal digits of Unicode, none of
/// which is white space. So it finds a number. In a number by itself the bare pattern
/// finds all of it, and so does the numeric pattern, which takes digits, `.` and `-` up to
/// the end; the others want a character in front that no number has, and find nothing.
#[verifier::external_body]
pub(crate) fn find_group(re: &Regex, text: &str, group: usize) -> (r: Option<String>)
    ensures
        opt_view(r) == regex_group(regex_source(*re), text@, group as nat),
        key_patterns().contains(regex_source(*re)) && group == 1 ==> (r matches Some(m)
            ==> marked_number(m@)),
        ascii_number(text@) && group == 1 ==> if regex_source(*re) == BARE_PATTERN@
            || regex_source(*re) == NUMERIC_PATTERN@ {
            opt_view(r) == Some(text@)
        } else {
            key_patterns().contains(regex_source(*re)) ==> r is None
        },
{
    re.captures(text).and_then(|c| c.get(group).map(|m| m.as_str().to_string()))
}

/// The patterns that mark an episode number, in the order in which they are tried.
pub open spec fn key_patterns() -> Seq<Seq<char>> {
    seq![ORDINAL_PATTERN@, SEASON_PATTERN@, EPISODE_PATTERN@, BARE_PATTERN@]
}

proof fn lemma_patterns_differ()
    ensures
        forall|i: int|
            0 <= i < 3 ==> #[trigger] key_patterns()[i] != BARE_PATTERN@ && key_patterns()[i]
                != NUMERIC_PATTERN@,
{
    reveal_strlit(r"第\s*(\d+(?:[-.]\d+)*)\s*[话集]");
    reveal_strlit(r"s\d+\s*e[p]?\s*(\d+(?:[-.]\d+)*)");
    reveal_strlit(r"e[p]?\s*(\d+(?:[-.]\d+)*)");
    reveal_strlit(r"(\d+(?:[-.]\d+)*)");
    reveal_strlit(r"^(?P<num>[\d.\-]+?)(?:v\d+)?$");
    assert(ORDINAL_PATTERN@[0] == '第');
    assert(SEASON_PATTERN@[0] == 's');
    assert(EPISODE_PATTERN@[0] == 'e');
    assert(BARE_PATTERN@[0] == '(');
    assert(NUMERIC_PATTERN@[0] == '^');
}

/// The patterns of this library, compiled.
#[derive(Debug)]
pub struct Patterns {
    pub(crate) fields: Regex,
    pub(crate) keys: Vec<Regex>,
    pub(crate) numeric: Regex,
}

impl Patterns {
    /// Each expression was compiled from the pattern that its field stands for.
    pub closed spec fn wf(&self) -> bool {
        &&& regex_source(self.fields) == FIELD_PATTERN@
        &&& self.keys@.len() == 4
        &&& forall|i: int|
            0 <= i < 4 ==> regex_source(#[trigger] self.keys@[i]) == key_patterns()[i]
        &&& regex_source(self.numeric) == NUMERIC_PATTERN@
    }

    /// Compiles the patterns.
    pub fn new() -> (r: Self)
        ensures
            r.wf(),
    {
        let mut keys: Vec<Regex> = Vec::new();
        keys.push(compile(ORDINAL_PATTERN).unwrap());
        keys.push(compile(SEASON_PATTERN).unwrap());
        keys.push(compile(EPISODE_PATTERN).unwrap());
        keys.push(compile(BARE_PATTERN).unwrap());
        Patterns {
            fields: compile(FIELD_PATTERN).unwrap(),
            keys,
            numeric: compile(NUMERIC_PATTERN).unwrap(),
        }
    }

    /// The pieces of `text` that the field pattern finds.
    pub fn pieces(&self, text: &str) -> (r: Vec<String>)
        requires
            self.wf(),
        ensures
            views(r@) == regex_finds(FIELD_PATTERN@, text@),
    {
        find_all(&self.fields, text)
    }

    /// The episode number that each key pattern finds in `text`.
    pub fn marked_numbers(&self, text: &str) -> (r: Vec<Option<String>>)
        requires
            self.wf(),
        ensures
            r@.len() == 4,
            forall|i: int|
                0 <= i < 4 ==> opt_view(#[trigger] r@[i]) == regex_group(
                    key_patterns()[i],
                    text@,
                    1,
                ) && (r@[i] matches Some(m) ==> marked_number(m@)),
            ascii_number(text@) ==> r@[0] is None && r@[1] is None && r@[2] is None && opt_view(
                r@[3],
            ) == Some(text@),
    {
        let mut out: Vec<Option<String>> = Vec::new();
        let mut i: usize = 0;
        while i < 4
            invariant
                i <= 4,
                self.wf(),
                out@.len() == i,
                forall|j: int|
                    0 <= j < i ==> opt_view(#[trigger] out@[j]) == regex_group(
                        key_patterns()[j],
                        text@,
                        1,
                    ) && (out@[j] matches Some(m) ==> marked_number(m@)),
                forall|j: int|
                    ascii_number(text@) && 0 <= j < i ==> opt_view(#[trigger] out@[j]) == if j
                        == 3 {
                        Some(text@)
                    } else {
                        None
                    },
            decreases 4 - i,
        {
            proof {
                lemma_patterns_differ();
                assert(key_patterns().contains(key_patterns()[i as int]));
                assert(regex_source(self.keys@[i as int]) == key_patterns()[i as int]);
            }
            out.push(find_group(&self.keys[i], text, 1));
            i += 1;
        }
        out
    }

    /// The number at the start of `text`, where the rest is a revision at most.
    pub fn leading_number(&self, text: &str) -> (r: Option<String>)
        requires
            self.wf(),
        ensures
            opt_view(r) == regex_group(NUMERIC_PATTERN@, text@, 1),
            ascii_number(text@) ==> opt_view(r) == Some(text@),
    {
        find_group(&self.numeric, text, 1)
    }
}

/// A second value with the same characters.
pub fn copy_opt(s: &Option<String>) -> (r: Option<String>)
    ensures
        opt_view(r) == opt_view(*s),
{
    match s {
        Some(t) => Some(copy_of(t.as_str())),
        None => None,
    }
}

/// What the expressions of this library are: runs of one kind of characters, the four marks of
/// a number, and a number that stands alone.
pub proof fn law_pattern_texts()
    ensures
        FIELD_PATTERN@ == r"\d+|[A-Za-z]+|\p{Alphabetic}+|[^\p{Alphabetic}\p{Digit}]+"@,
        ORDINAL_PATTERN@ == r"第\s*(\d+(?:[-.]\d+)*)\s*[话集]"@,
        SEASON_PATTERN@ == r"s\d+\s*e[p]?\s*(\d+(?:[-.]\d+)*)"@,
        EPISODE_PATTERN@ == r"e[p]?\s*(\d+(?:[-.]\d+)*)"@,
        BARE_PATTERN@ == r"(\d+(?:[-.]\d+)*)"@,
        NUMERIC_PATTERN@ == r"^(?P<num>[\d.\-]+?)(?:v\d+)?$"@,
{
}

} // verus!
