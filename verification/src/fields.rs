//! Stems cut into fields.

use vstd::prelude::*;

use crate::key::RawKey;
use crate::normalize::{is_listed, special_tag_list, special_tags};
use crate::pattern::{regex_finds, views, Patterns, FIELD_PATTERN};
use crate::text::{
    ascii_char, ascii_digit, ascii_letter, begins_with, chars_of, copy_of, ends_with,
    finishes_with, is_ascii_char, is_digit, is_letter, lower, same_str, starts_with, to_lower,
};
use crate::unicode::{alphabetic, alphanumeric};

verus! {

/// What a field consists of.
#[derive(Debug, Clone, Copy, PartialEq, Eq, Hash, Structural)]
pub enum FieldKind {
    /// A run of ASCII digits.
    Digit,
    /// A run of ASCII letters.
    Alpha,
    /// Whatever stands between the other fields.
    Separator,
    /// Letters of which one at least is not ASCII, such as `中文`.
    CjkAlpha,
    /// Digits that are not ASCII. No field is of this kind: such digits are
    /// letters or separators here.
    CjkDigit,
}

/// One field of a stem.
#[derive(Debug)]
pub struct Field {
    /// The characters of the field.
    pub text: String,
    /// What they are.
    pub kind: FieldKind,
}

/// What a [`Field`] stands for.
pub struct FieldModel {
    pub text: Seq<char>,
    pub kind: FieldKind,
}

impl View for Field {
    type V = FieldModel;

    open spec fn view(&self) -> FieldModel {
        FieldModel { text: self.text@, kind: self.kind }
    }
}

impl Clone for Field {
    fn clone(&self) -> (r: Self)
        ensures
            r@ == self@,
    {
        Field { text: copy_of(self.text.as_str()), kind: self.kind }
    }
}

impl Field {
    /// Whether the two fields have the same text and kind.
    pub fn same(&self, other: &Field) -> (r: bool)
        ensures
            r == (self@ == other@),
    {
        self.kind == other.kind && self.text == other.text
    }
}

/// What each field stands for.
pub open spec fn field_models(v: Seq<Field>) -> Seq<FieldModel> {
    Seq::new(v.len(), |i: int| v[i]@)
}

/// What the fields of each stem stand for.
pub open spec fn stem_models(v: Seq<Vec<Field>>) -> Seq<Seq<FieldModel>> {
    Seq::new(v.len(), |i: int| field_models(v[i]@))
}

// ---------------------------------------------------------------------------
// Kinds
// ---------------------------------------------------------------------------
/// Every character of `s` satisfies `p`.
pub open spec fn all_chars(s: Seq<char>, p: spec_fn(char) -> bool) -> bool {
    forall|i: int| 0 <= i < s.len() ==> p(#[trigger] s[i])
}

/// Some character of `s` satisfies `p`.
pub open spec fn any_char(s: Seq<char>, p: spec_fn(char) -> bool) -> bool {
    exists|i: int| 0 <= i < s.len() && p(#[trigger] s[i])
}

/// The kind of a field with the characters `t`: digits that `-` and `.` may join,
/// letters, or a separator.
pub open spec fn kind_of(t: Seq<char>) -> FieldKind {
    if all_chars(t, |c: char| ascii_digit(c) || c == '-' || c == '.') {
        if any_char(t, |c: char| ascii_digit(c)) {
            FieldKind::Digit
        } else {
            FieldKind::Separator
        }
    } else if all_chars(t, |c: char| alphabetic(c)) {
        if any_char(t, |c: char| !ascii_char(c)) {
            FieldKind::CjkAlpha
        } else {
            FieldKind::Alpha
        }
    } else {
        FieldKind::Separator
    }
}

/// The kind of a field with the characters of `text`.
pub fn field_kind(text: &str) -> (r: FieldKind)
    ensures
        r == kind_of(text@),
{
    let c = chars_of(text);
    let mut numeric = true;
    let mut digit = false;
    let mut letters = true;
    let mut foreign = false;
    let ghost pn = |c: char| ascii_digit(c) || c == '-' || c == '.';
    let ghost pd = |c: char| ascii_digit(c);
    let ghost pl = |c: char| alphabetic(c);
    let ghost pf = |c: char| !ascii_char(c);
    let mut i: usize = 0;
    while i < c.len()
        invariant
            i <= c@.len(),
            c@ == text@,
            pn == (|c: char| ascii_digit(c) || c == '-' || c == '.'),
            pd == (|c: char| ascii_digit(c)),
            pl == (|c: char| alphabetic(c)),
            pf == (|c: char| !ascii_char(c)),
            numeric == all_chars(text@.take(i as int), pn),
            digit == any_char(text@.take(i as int), pd),
            letters == all_chars(text@.take(i as int), pl),
            foreign == any_char(text@.take(i as int), pf),
        decreases c@.len() - i,
    {
        let ch = c[i];
        proof {
            let t = text@.take(i + 1);
            assert(t.drop_last() =~= text@.take(i as int));
            assert(t.last() == ch);
            lemma_chars_step(t, pn);
            lemma_chars_step(t, pd);
            lemma_chars_step(t, pl);
            lemma_chars_step(t, pf);
        }
        numeric = numeric && (is_digit(ch) || ch == '-' || ch == '.');
        digit = digit || is_digit(ch);
        letters = letters && ch.is_alphabetic();
        foreign = foreign || !is_ascii_char(ch);
        i += 1;
    }
    assert(text@.take(i as int) =~= text@);
    if numeric {
        if digit {
            FieldKind::Digit
        } else {
            FieldKind::Separator
        }
    } else if letters {
        if foreign {
            FieldKind::CjkAlpha
        } else {
            FieldKind::Alpha
        }
    } else {
        FieldKind::Separator
    }
}

proof fn lemma_chars_step(t: Seq<char>, p: spec_fn(char) -> bool)
    requires
        t.len() > 0,
    ensures
        all_chars(t, p) == (all_chars(t.drop_last(), p) && p(t.last())),
        any_char(t, p) == (any_char(t.drop_last(), p) || p(t.last())),
{
    let s = t.drop_last();
    assert forall|i: int| 0 <= i < s.len() implies s[i] == t[i] by {}
    if all_chars(s, p) && p(t.last()) {
        assert forall|i: int| 0 <= i < t.len() implies p(#[trigger] t[i]) by {
            if i < s.len() {
                assert(p(s[i]));
            }
        }
    }
    if all_chars(t, p) {
        assert forall|i: int| 0 <= i < s.len() implies p(#[trigger] s[i]) by {
            assert(p(t[i]));
        }
        assert(p(t[t.len() - 1]));
    }
    if any_char(s, p) {
        let i = choose|i: int| 0 <= i < s.len() && p(#[trigger] s[i]);
        assert(p(t[i]));
    }
    if p(t.last()) {
        assert(p(t[t.len() - 1]));
    }
    if any_char(t, p) {
        let i = choose|i: int| 0 <= i < t.len() && p(#[trigger] t[i]);
        if i < s.len() {
            assert(p(s[i]));
        }
    }
}

/// The fields whose texts are `pieces`.
pub open spec fn fields_from(pieces: Seq<Seq<char>>) -> Seq<FieldModel> {
    Seq::new(pieces.len(), |i: int| FieldModel { text: pieces[i], kind: kind_of(pieces[i]) })
}

/// The fields of `s`.
pub open spec fn fields_of(s: Seq<char>) -> Seq<FieldModel> {
    fields_from(regex_finds(FIELD_PATTERN@, s))
}

/// The fields whose texts are `pieces`.
pub fn label_pieces(pieces: Vec<String>) -> (r: Vec<Field>)
    ensures
        field_models(r@) == fields_from(views(pieces@)),
{
    let mut out: Vec<Field> = Vec::new();
    let mut i: usize = 0;
    while i < pieces.len()
        invariant
            i <= pieces@.len(),
            out@.len() == i,
            forall|j: int|
                0 <= j < i ==> (#[trigger] out@[j])@ == fields_from(views(pieces@))[j],
        decreases pieces@.len() - i,
    {
        let kind = field_kind(pieces[i].as_str());
        out.push(Field { text: copy_of(pieces[i].as_str()), kind });
        i += 1;
    }
    assert(field_models(out@) =~= fields_from(views(pieces@)));
    out
}

/// The fields of `s`, with patterns that are compiled already.
pub fn split_with(patterns: &Patterns, s: &str) -> (r: Vec<Field>)
    requires
        patterns.wf(),
    ensures
        field_models(r@) == fields_of(s@),
{
    label_pieces(patterns.pieces(s))
}

/// The fields of `s`.
pub fn split_fields(s: &str) -> (r: Vec<Field>)
    ensures
        field_models(r@) == fields_of(s@),
{
    split_with(&Patterns::new(), s)
}

// ---------------------------------------------------------------------------
// Segments
// ---------------------------------------------------------------------------
/// How much a text looks like an episode number.
#[derive(Debug, Clone, Copy, PartialEq, Eq, Structural)]
pub enum SegmentType {
    /// Digits and no letters, as in `01`.
    PureDigit,
    /// Digits and letters, as in `108p`.
    ContainsDigit,
    /// No digits, as in `NCOP`.
    PureText,
}

impl SegmentType {
    /// The weight of the type in the ranking.
    pub open spec fn weight(self) -> nat {
        match self {
            SegmentType::PureDigit => 3,
            SegmentType::ContainsDigit => 2,
            SegmentType::PureText => 1,
        }
    }

    /// The weight of the type in the ranking.
    pub fn score(self) -> (r: u32)
        ensures
            r == self.weight(),
    {
        match self {
            SegmentType::PureDigit => 3,
            SegmentType::ContainsDigit => 2,
            SegmentType::PureText => 1,
        }
    }
}

/// The segment type of `t`.
pub open spec fn segment_of(t: Seq<char>) -> SegmentType {
    if !any_char(t, |c: char| ascii_digit(c)) {
        SegmentType::PureText
    } else if !any_char(t, |c: char| ascii_letter(c)) {
        SegmentType::PureDigit
    } else {
        SegmentType::ContainsDigit
    }
}

/// The segment type of `text`.
pub fn classify(text: &str) -> (r: SegmentType)
    ensures
        r == segment_of(text@),
{
    let c = chars_of(text);
    let mut digit = false;
    let mut letter = false;
    let ghost pd = |c: char| ascii_digit(c);
    let ghost pl = |c: char| ascii_letter(c);
    let mut i: usize = 0;
    while i < c.len()
        invariant
            i <= c@.len(),
            c@ == text@,
            pd == (|c: char| ascii_digit(c)),
            pl == (|c: char| ascii_letter(c)),
            digit == any_char(text@.take(i as int), pd),
            letter == any_char(text@.take(i as int), pl),
        decreases c@.len() - i,
    {
        let ch = c[i];
        proof {
            let t = text@.take(i + 1);
            assert(t.drop_last() =~= text@.take(i as int));
            assert(t.last() == ch);
            lemma_chars_step(t, pd);
            lemma_chars_step(t, pl);
        }
        digit = digit || is_digit(ch);
        letter = letter || is_letter(ch);
        i += 1;
    }
    assert(text@.take(i as int) =~= text@);
    if !digit {
        SegmentType::PureText
    } else if !letter {
        SegmentType::PureDigit
    } else {
        SegmentType::ContainsDigit
    }
}

/// A separator that consists of letters and numbers none of which is ASCII.
pub open spec fn cjk_text(f: FieldModel) -> bool {
    f.kind == FieldKind::Separator && f.text.len() > 0 && all_chars(
        f.text,
        |c: char| !ascii_char(c) && alphanumeric(c),
    )
}

/// Whether `f` is a separator of letters and numbers none of which is ASCII.
pub fn is_cjk_text_field(f: &Field) -> (r: bool)
    ensures
        r == cjk_text(f@),
{
    match f.kind {
        FieldKind::Separator => {},
        _ => {
            return false;
        },
    }
    let c = chars_of(f.text.as_str());
    let ghost p = |c: char| !ascii_char(c) && alphanumeric(c);
    let mut i: usize = 0;
    while i < c.len()
        invariant
            i <= c@.len(),
            c@ == f.text@,
            p == (|c: char| !ascii_char(c) && alphanumeric(c)),
            forall|j: int| 0 <= j < i ==> p(#[trigger] f.text@[j]),
        decreases c@.len() - i,
    {
        if is_ascii_char(c[i]) || !c[i].is_alphanumeric() {
            assert(!p(f.text@[i as int]));
            return false;
        }
        i += 1;
    }
    c.len() > 0
}

// ---------------------------------------------------------------------------
// The key of a single stem
// ---------------------------------------------------------------------------
/// The first field of kind `k`.
pub open spec fn first_of_kind(fields: Seq<FieldModel>, k: FieldKind) -> Option<int>
    decreases fields.len(),
{
    if fields.len() == 0 {
        None
    } else if let Some(i) = first_of_kind(fields.drop_last(), k) {
        Some(i)
    } else if fields.last().kind == k {
        Some(fields.len() - 1)
    } else {
        None
    }
}

/// The last field before position `i` that is not a separator.
pub open spec fn token_before(fields: Seq<FieldModel>, i: int) -> Option<int>
    decreases i,
{
    if i <= 0 {
        None
    } else if fields[i - 1].kind != FieldKind::Separator {
        Some(i - 1)
    } else {
        token_before(fields, i - 1)
    }
}

/// The key of a stem with these fields: the tag before the first number where it
/// is a special one, else that number, else the first run of ASCII letters.
pub open spec fn single_key(fields: Seq<FieldModel>) -> Option<Seq<char>> {
    match first_of_kind(fields, FieldKind::Digit) {
        Some(i) => match token_before(fields, i) {
            Some(j) if fields[j].kind == FieldKind::Alpha && special_tags().contains(
                lower(fields[j].text),
            ) => Some(fields[j].text),
            _ => Some(fields[i].text),
        },
        None => match first_of_kind(fields, FieldKind::Alpha) {
            Some(i) => Some(fields[i].text),
            None => None,
        },
    }
}

/// The first field of kind `k`.
fn find_kind(fields: &Vec<Field>, k: FieldKind) -> (r: Option<usize>)
    ensures
        match r {
            Some(i) => first_of_kind(field_models(fields@), k) == Some(i as int) && i
                < fields@.len(),
            None => first_of_kind(field_models(fields@), k) is None,
        },
{
    let ghost all = field_models(fields@);
    let mut i: usize = 0;
    while i < fields.len()
        invariant
            all == field_models(fields@),
            i <= fields@.len(),
            first_of_kind(all.take(i as int), k) is None,
        decreases fields@.len() - i,
    {
        proof {
            assert(all.take(i + 1).drop_last() =~= all.take(i as int));
            assert(all.take(i + 1).last() == fields@[i as int]@);
        }
        if fields[i].kind == k {
            proof {
                lemma_first_of_kind_prefix(all, k, i + 1);
            }
            return Some(i);
        }
        i += 1;
    }
    assert(all.take(i as int) =~= all);
    None
}

proof fn lemma_first_of_kind_prefix(fields: Seq<FieldModel>, k: FieldKind, n: int)
    requires
        0 <= n <= fields.len(),
        first_of_kind(fields.take(n), k) is Some,
    ensures
        first_of_kind(fields, k) == first_of_kind(fields.take(n), k),
    decreases fields.len(),
{
    if n == fields.len() {
        assert(fields.take(n) =~= fields);
    } else {
        assert(fields.drop_last().take(n) =~= fields.take(n));
        lemma_first_of_kind_prefix(fields.drop_last(), k, n);
    }
}

/// The key of a stem with these fields.
pub fn single_from_fields(fields: &Vec<Field>) -> (r: RawKey)
    ensures
        r@ == single_key(field_models(fields@)),
{
    let ghost all = field_models(fields@);
    match find_kind(fields, FieldKind::Digit) {
        Some(i) => {
            let mut j: usize = i;
            while j > 0 && fields[j - 1].kind == FieldKind::Separator
                invariant
                    all == field_models(fields@),
                    j <= i < fields@.len(),
                    token_before(all, i as int) == token_before(all, j as int),
                decreases j,
            {
                j -= 1;
            }
            if j > 0 {
                let before = &fields[j - 1];
                assert(token_before(all, i as int) == Some(j - 1));
                if before.kind == FieldKind::Alpha && is_listed(
                    to_lower(before.text.as_str()).as_str(),
                    &special_tag_list(),
                ) {
                    return RawKey(Some(copy_of(before.text.as_str())));
                }
            }
            RawKey(Some(copy_of(fields[i].text.as_str())))
        },
        None => match find_kind(fields, FieldKind::Alpha) {
            Some(i) => RawKey(Some(copy_of(fields[i].text.as_str()))),
            None => RawKey(None),
        },
    }
}

/// The key of a stem on its own, with patterns that are compiled already.
pub fn single_with(patterns: &Patterns, stem: &str) -> (r: RawKey)
    requires
        patterns.wf(),
    ensures
        r@ == single_key(fields_of(stem@)),
{
    single_from_fields(&split_with(patterns, stem))
}

/// The key of a stem on its own: its first plausible number or text.
pub fn heuristic_single(stem: &str) -> (r: RawKey)
    ensures
        r@ == single_key(fields_of(stem@)),
{
    single_with(&Patterns::new(), stem)
}

// ---------------------------------------------------------------------------
// Episode markers
// ---------------------------------------------------------------------------
/// `t`, in lower case, is an episode marker.
pub open spec fn is_marker(t: Seq<char>) -> bool {
    ||| t == "e"@
    ||| t == "ep"@
    ||| begins_with(t, "第"@)
    ||| finishes_with(t, "话"@)
    ||| finishes_with(t, "集"@)
}

/// Field `i` stands beside an episode marker.
pub open spec fn beside_marker(fields: Seq<FieldModel>, i: int) -> bool {
    ||| 1 <= i <= fields.len() && is_marker(lower(fields[i - 1].text))
    ||| i + 1 < fields.len() && is_marker(lower(fields[i + 1].text))
}

fn marks(text: &str) -> (r: bool)
    ensures
        r == is_marker(lower(text@)),
{
    let t = to_lower(text);
    same_str(t.as_str(), "e") || same_str(t.as_str(), "ep") || starts_with(t.as_str(), "第")
        || ends_with(t.as_str(), "话") || ends_with(t.as_str(), "集")
}

/// Whether field `i` stands beside an episode marker.
pub fn near_marker(fields: &Vec<Field>, i: usize) -> (r: bool)
    ensures
        r == beside_marker(field_models(fields@), i as int),
{
    if i > 0 && i - 1 < fields.len() && marks(fields[i - 1].text.as_str()) {
        return true;
    }
    i < fields.len() && i + 1 < fields.len() && marks(fields[i + 1].text.as_str())
}

} // verus!
