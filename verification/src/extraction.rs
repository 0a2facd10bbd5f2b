//! Which part of a stem its raw key is.

use vstd::prelude::*;
use vstd::string::*;

use crate::extract::{
    all_fields, all_have, backwards, best_field, comparables, eligible, field_score, head_len,
    inner_parts, key_at, keyable, keys_in, law_best_field, law_longest_head, law_one_key_each,
    pattern_keys, raw_keys, share_head, tail_len, texts_at,
};
use crate::fields::{
    all_chars, any_char, beside_marker, cjk_text, fields_of, first_of_kind, is_marker, kind_of,
    segment_of, single_key, token_before, FieldKind, FieldModel, SegmentType,
};
use crate::normalize::special_tags;
use crate::pattern::{regex_finds, regex_group, regex_valid, FIELD_PATTERN};
use crate::sorting::{count_of, distinct, law_distinct};
use crate::stem::{comparable, folded, plain};
use crate::text::{ascii_char, ascii_digit, ascii_letter, begins_with, lower};
use crate::unicode::{alphabetic, alphanumeric, nfkd_form};

verus! {

// ---------------------------------------------------------------------------
// Fields
// ---------------------------------------------------------------------------
/// A field is numeric if it has a digit and otherwise only digits, `-` and `.`. It is made
/// of letters if it is nothing but letters, ASCII ones or not. Any other is a separator.
pub proof fn law_kind(t: Seq<char>)
    ensures
        kind_of(t) == FieldKind::Digit <==> (forall|i: int|
            0 <= i < t.len() ==> ('0' <= #[trigger] t[i] <= '9' || t[i] == '-' || t[i] == '.')) && (
        exists|i: int| 0 <= i < t.len() && '0' <= #[trigger] t[i] <= '9'),
        kind_of(t) == FieldKind::Alpha <==> t.len() > 0 && (forall|i: int|
            0 <= i < t.len() ==> alphabetic(#[trigger] t[i]) && t[i] as u32 <= 127) && (exists|
            i: int,
        |
            0 <= i < t.len() && !('0' <= #[trigger] t[i] <= '9' || t[i] == '-' || t[i] == '.')),
        kind_of(t) == FieldKind::CjkAlpha <==> (forall|i: int|
            0 <= i < t.len() ==> alphabetic(#[trigger] t[i])) && (exists|i: int|
            0 <= i < t.len() && #[trigger] t[i] as u32 > 127),
        kind_of(t) != FieldKind::CjkDigit,
{
    let pn = |c: char| ascii_digit(c) || c == '-' || c == '.';
    let pd = |c: char| ascii_digit(c);
    let pl = |c: char| alphabetic(c);
    let pf = |c: char| !ascii_char(c);
    if exists|i: int| 0 <= i < t.len() && '0' <= #[trigger] t[i] <= '9' {
        let i = choose|i: int| 0 <= i < t.len() && '0' <= #[trigger] t[i] <= '9';
        assert(pd(t[i]));
    }
    if exists|i: int| 0 <= i < t.len() && #[trigger] t[i] as u32 > 127 {
        let i = choose|i: int| 0 <= i < t.len() && #[trigger] t[i] as u32 > 127;
        assert(pf(t[i]));
        assert(!pn(t[i]));
    }
    if any_char(t, pf) {
        let i = choose|i: int| 0 <= i < t.len() && pf(#[trigger] t[i]);
        assert(t[i] as u32 > 127);
    }
    if any_char(t, pd) {
        let i = choose|i: int| 0 <= i < t.len() && pd(#[trigger] t[i]);
        assert('0' <= t[i] <= '9');
    }
    if all_chars(t, pn) {
        assert forall|i: int| 0 <= i < t.len() implies ('0' <= #[trigger] t[i] <= '9' || t[i] == '-'
            || t[i] == '.') by {
            assert(pn(t[i]));
        }
    } else {
        let i = choose|i: int| 0 <= i < t.len() && !pn(#[trigger] t[i]);
        assert(!('0' <= t[i] <= '9' || t[i] == '-' || t[i] == '.'));
        assert(t.len() > 0);
    }
    if all_chars(t, pl) {
        assert forall|i: int| 0 <= i < t.len() implies alphabetic(#[trigger] t[i]) by {
            assert(pl(t[i]));
        }
    }
    if !any_char(t, pf) {
        assert forall|i: int| 0 <= i < t.len() implies #[trigger] t[i] as u32 <= 127 by {
            assert(!pf(t[i]));
        }
    }
}

/// The fields of a stem are the pieces that the field pattern finds, each with its kind.
pub proof fn law_fields(s: Seq<char>, i: int)
    requires
        0 <= i < fields_of(s).len(),
    ensures
        fields_of(s).len() == regex_finds(FIELD_PATTERN@, s).len(),
        fields_of(s)[i].text == regex_finds(FIELD_PATTERN@, s)[i],
        fields_of(s)[i].kind == kind_of(regex_finds(FIELD_PATTERN@, s)[i]),
{
}

/// A text with digits and no ASCII letters outweighs one with both, which outweighs one
/// without digits.
pub proof fn law_segment(t: Seq<char>)
    ensures
        segment_of(t) == SegmentType::PureText <==> forall|i: int|
            0 <= i < t.len() ==> !('0' <= #[trigger] t[i] <= '9'),
        segment_of(t) == SegmentType::PureDigit <==> (exists|i: int|
            0 <= i < t.len() && '0' <= #[trigger] t[i] <= '9') && forall|i: int|
            0 <= i < t.len() ==> !('a' <= #[trigger] t[i] <= 'z' || 'A' <= t[i] <= 'Z'),
        SegmentType::PureDigit.weight() > SegmentType::ContainsDigit.weight(),
        SegmentType::ContainsDigit.weight() > SegmentType::PureText.weight(),
{
    let pd = |c: char| ascii_digit(c);
    let pl = |c: char| ascii_letter(c);
    if any_char(t, pd) {
        let i = choose|i: int| 0 <= i < t.len() && pd(#[trigger] t[i]);
        assert('0' <= t[i] <= '9');
    } else {
        assert forall|i: int| 0 <= i < t.len() implies !('0' <= #[trigger] t[i] <= '9') by {
            assert(!pd(t[i]));
        }
    }
    if any_char(t, pl) {
        let i = choose|i: int| 0 <= i < t.len() && pl(#[trigger] t[i]);
        assert('a' <= t[i] <= 'z' || 'A' <= t[i] <= 'Z');
    } else {
        assert forall|i: int| 0 <= i < t.len() implies !('a' <= #[trigger] t[i] <= 'z' || 'A'
            <= t[i] <= 'Z') by {
            assert(!pl(t[i]));
        }
    }
}

/// Of the separators, those that are letters and numbers outside ASCII can be keys too.
pub proof fn law_cjk_text(f: FieldModel)
    ensures
        cjk_text(f) <==> f.kind == FieldKind::Separator && f.text.len() > 0 && forall|i: int|
            0 <= i < f.text.len() ==> #[trigger] f.text[i] as u32 > 127 && alphanumeric(f.text[i]),
{
    let p = |c: char| !ascii_char(c) && alphanumeric(c);
    if cjk_text(f) {
        assert forall|i: int| 0 <= i < f.text.len() implies #[trigger] f.text[i] as u32 > 127
            && alphanumeric(f.text[i]) by {
            assert(p(f.text[i]));
        }
    }
}

/// Episode markers are `e`, `ep`, and what begins with `第` or ends with `话` or `集`.
pub proof fn law_marker(t: Seq<char>)
    ensures
        is_marker(t) <==> (t == "e"@ || t == "ep"@ || (t.len() > 0 && t[0] == '第') || (t.len() > 0
            && (t.last() == '话' || t.last() == '集'))),
{
    reveal_strlit("第");
    reveal_strlit("话");
    reveal_strlit("集");
    if t.len() > 0 {
        assert(t.subrange(0, 1) =~= seq![t[0]]);
        assert(t.subrange(t.len() - 1, t.len() as int) =~= seq![t.last()]);
    }
    assert("第"@ =~= seq!['第']);
    assert("话"@ =~= seq!['话']);
    assert("集"@ =~= seq!['集']);
    if t.len() > 0 {
        assert(seq![t[0]] == seq!['第'] <==> t[0] == '第') by {
            assert(seq![t[0]][0] == t[0] && seq!['第'][0] == '第');
        }
        assert(seq![t.last()] == seq!['话'] <==> t.last() == '话') by {
            assert(seq![t.last()][0] == t.last() && seq!['话'][0] == '话');
        }
        assert(seq![t.last()] == seq!['集'] <==> t.last() == '集') by {
            assert(seq![t.last()][0] == t.last() && seq!['集'][0] == '集');
        }
    }
}

/// A field stands beside a marker if the field right before it or right behind it is one,
/// in any case.
pub proof fn law_beside(fields: Seq<FieldModel>, i: int)
    requires
        0 <= i < fields.len(),
    ensures
        beside_marker(fields, i) <==> ((i > 0 && is_marker(lower(fields[i - 1].text))) || (i + 1
            < fields.len() && is_marker(lower(fields[i + 1].text)))),
{
}

// ---------------------------------------------------------------------------
// The key of a single stem
// ---------------------------------------------------------------------------
proof fn lemma_first_kind(fields: Seq<FieldModel>, k: FieldKind)
    ensures
        match first_of_kind(fields, k) {
            Some(i) => 0 <= i < fields.len() && fields[i].kind == k && forall|j: int|
                0 <= j < i ==> (#[trigger] fields[j]).kind != k,
            None => forall|j: int| 0 <= j < fields.len() ==> (#[trigger] fields[j]).kind != k,
        },
    decreases fields.len(),
{
    if fields.len() > 0 {
        let t = fields.drop_last();
        lemma_first_kind(t, k);
        assert forall|j: int| 0 <= j < t.len() implies #[trigger] fields[j] == t[j] by {}
    }
}

proof fn lemma_token_before(fields: Seq<FieldModel>, i: int)
    requires
        0 <= i <= fields.len(),
    ensures
        match token_before(fields, i) {
            Some(j) => 0 <= j < i && fields[j].kind != FieldKind::Separator && forall|k: int|
                j < k < i ==> (#[trigger] fields[k]).kind == FieldKind::Separator,
            None => forall|k: int|
                0 <= k < i ==> (#[trigger] fields[k]).kind == FieldKind::Separator,
        },
    decreases i,
{
    if i > 0 && fields[i - 1].kind == FieldKind::Separator {
        lemma_token_before(fields, i - 1);
    }
}

/// The key of a stem on its own is its first number, unless the last field before it that is
/// no separator is a special tag, which is the key then.
pub proof fn law_single_number(fields: Seq<FieldModel>, i: int, j: int)
    requires
        0 <= i < fields.len(),
        fields[i].kind == FieldKind::Digit,
        forall|k: int| 0 <= k < i ==> (#[trigger] fields[k]).kind != FieldKind::Digit,
        -1 <= j < i,
        j >= 0 ==> fields[j].kind != FieldKind::Separator,
        forall|k: int| j < k < i ==> (#[trigger] fields[k]).kind == FieldKind::Separator,
    ensures
        single_key(fields) == if j >= 0 && fields[j].kind == FieldKind::Alpha
            && special_tags().contains(lower(fields[j].text)) {
            Some(fields[j].text)
        } else {
            Some(fields[i].text)
        },
{
    lemma_first_kind(fields, FieldKind::Digit);
    lemma_token_before(fields, i);
    let f = first_of_kind(fields, FieldKind::Digit);
    assert(f is Some) by {
        assert(fields[i].kind == FieldKind::Digit);
    }
    if f->0 < i {
        assert(fields[f->0].kind != FieldKind::Digit);
    }
    if i < f->0 {
        assert(fields[i].kind != FieldKind::Digit);
    }
    match token_before(fields, i) {
        Some(m) => {
            if m < j {
                assert(fields[j].kind == FieldKind::Separator);
            }
            if j < m {
                assert(fields[m].kind == FieldKind::Separator);
            }
        },
        None => {
            if j >= 0 {
                assert(fields[j].kind == FieldKind::Separator);
            }
        },
    }
}

/// The key of a stem without numbers is its first run of ASCII letters, and there is none
/// where it has no such run.
pub proof fn law_single_word(fields: Seq<FieldModel>, i: int)
    requires
        forall|k: int|
            0 <= k < fields.len() ==> (#[trigger] fields[k]).kind != FieldKind::Digit,
        0 <= i <= fields.len(),
        i < fields.len() ==> fields[i].kind == FieldKind::Alpha,
        forall|k: int| 0 <= k < i ==> (#[trigger] fields[k]).kind != FieldKind::Alpha,
    ensures
        single_key(fields) == if i < fields.len() {
            Some(fields[i].text)
        } else {
            None
        },
{
    lemma_first_kind(fields, FieldKind::Digit);
    lemma_first_kind(fields, FieldKind::Alpha);
    if let Some(f) = first_of_kind(fields, FieldKind::Digit) {
        assert(fields[f].kind != FieldKind::Digit);
    }
    if let Some(f) = first_of_kind(fields, FieldKind::Alpha) {
        if f < i {
            assert(fields[f].kind != FieldKind::Alpha);
        }
        if i < f {
            assert(fields[i].kind != FieldKind::Alpha);
        }
    } else if i < fields.len() {
        assert(fields[i].kind != FieldKind::Alpha);
    }
}

// ---------------------------------------------------------------------------
// Shared ends
// ---------------------------------------------------------------------------
/// All stems have the same characters up to where the shared start ends. There one of them
/// ends or has another character than the first stem.
pub proof fn law_shared_head(stems: Seq<Seq<char>>)
    requires
        stems.len() > 0,
    ensures
        ({
            let n = head_len(stems);
            &&& 0 <= n <= stems[0].len()
            &&& forall|k: int, i: int|
                #![trigger stems[k][i]]
                0 <= k < stems.len() && 0 <= i < n ==> n <= stems[k].len() && stems[k][i]
                    == stems[0][i]
            &&& n < stems[0].len() ==> exists|k: int|
                0 <= k < stems.len() && ((#[trigger] stems[k]).len() <= n || stems[k][n]
                    != stems[0][n])
        }),
{
    law_longest_head(stems);
    let n = head_len(stems);
    assert forall|k: int, i: int|
        #![trigger stems[k][i]]
        0 <= k < stems.len() && 0 <= i < n implies n <= stems[k].len() && stems[k][i]
        == stems[0][i] by {
        assert(begins_with(stems[k], stems[0].take(n)));
        assert(stems[k].subrange(0, n)[i] == stems[0].take(n)[i]);
    }
    if n < stems[0].len() {
        assert(!share_head(stems, n + 1));
        let k = choose|k: int|
            0 <= k < stems.len() && !begins_with(#[trigger] stems[k], stems[0].take(n + 1));
        if stems[k].len() > n && stems[k][n] == stems[0][n] {
            assert(begins_with(stems[k], stems[0].take(n)));
            assert forall|i: int| 0 <= i < n + 1 implies stems[k][i] == stems[0][i] by {
                if i < n {
                    assert(stems[k].subrange(0, n)[i] == stems[0].take(n)[i]);
                }
            }
            assert(stems[k].subrange(0, n + 1) =~= stems[0].take(n + 1));
        }
    }
}

/// Read backwards, all stems have the same characters up to where the shared end is over.
/// There one of them is over or has another character than the first stem.
pub proof fn law_shared_tail(stems: Seq<Seq<char>>)
    requires
        stems.len() > 0,
    ensures
        ({
            let n = tail_len(stems);
            &&& 0 <= n <= stems[0].len()
            &&& forall|k: int, i: int|
                #![trigger stems[k].reverse()[i]]
                0 <= k < stems.len() && 0 <= i < n ==> stems[k].reverse()[i]
                    == stems[0].reverse()[i]
            &&& forall|k: int| 0 <= k < stems.len() ==> n <= (#[trigger] stems[k]).len()
            &&& n < stems[0].len() ==> exists|k: int|
                0 <= k < stems.len() && ((#[trigger] stems[k]).len() <= n || stems[k].reverse()[n]
                    != stems[0].reverse()[n])
        }),
{
    let b = backwards(stems);
    law_shared_head(b);
    let n = tail_len(stems);
    assert(b[0] == stems[0].reverse());
    assert forall|k: int, i: int|
        #![trigger stems[k].reverse()[i]]
        0 <= k < stems.len() && 0 <= i < n implies stems[k].reverse()[i] == stems[0].reverse()[i] by {
        assert(b[k] == stems[k].reverse());
        assert(b[k][i] == b[0][i]);
    }
    assert forall|k: int| 0 <= k < stems.len() implies n <= (#[trigger] stems[k]).len() by {
        assert(b[k].len() == stems[k].len());
        if n > 0 {
            assert(b[k][0] == b[0][0]);
        }
    }
    if n < stems[0].len() {
        let k = choose|k: int| 0 <= k < b.len() && ((#[trigger] b[k]).len() <= n || b[k][n]
            != b[0][n]);
        assert(b[k] == stems[k].reverse());
        assert(stems[k].len() == b[k].len());
    }
}

// ---------------------------------------------------------------------------
// The field that tells stems apart
// ---------------------------------------------------------------------------
proof fn lemma_distinct_full<T>(s: Seq<T>)
    ensures
        distinct(s).len() == s.len() <==> s.no_duplicates(),
        s.len() > 0 ==> distinct(s).len() >= 1,
    decreases s.len(),
{
    if s.len() > 0 {
        let t = s.drop_last();
        lemma_distinct_full(t);
        law_distinct(t);
        if s.no_duplicates() {
            assert(t.no_duplicates()) by {
                assert forall|i: int, j: int|
                    0 <= i < t.len() && 0 <= j < t.len() && i != j implies t[i] != t[j] by {
                    assert(s[i] != s[j]);
                }
            }
            if t.contains(s.last()) {
                let i = choose|i: int| 0 <= i < t.len() && t[i] == s.last();
                assert(s[i] == s[s.len() - 1]);
            }
        } else if distinct(s).len() == s.len() {
            assert(!t.contains(s.last()));
            assert forall|i: int, j: int|
                0 <= i < s.len() && 0 <= j < s.len() && i != j implies s[i] != s[j] by {
                if i < t.len() && j < t.len() {
                    assert(t[i] != t[j]);
                } else if i < t.len() {
                    assert(t.contains(t[i]));
                } else {
                    assert(t.contains(t[j]));
                }
            }
        }
    }
}

proof fn lemma_distinct_two<T>(s: Seq<T>)
    ensures
        distinct(s).len() >= 2 <==> exists|i: int, j: int|
            0 <= i < s.len() && 0 <= j < s.len() && #[trigger] s[i] != #[trigger] s[j],
{
    let d = distinct(s);
    law_distinct(s);
    if d.len() >= 2 {
        assert(d.contains(d[0]) && d.contains(d[1]));
        let i = choose|i: int| 0 <= i < s.len() && s[i] == d[0];
        let j = choose|j: int| 0 <= j < s.len() && s[j] == d[1];
        assert(s[i] != s[j]);
    }
    if exists|i: int, j: int|
        0 <= i < s.len() && 0 <= j < s.len() && #[trigger] s[i] != #[trigger] s[j] {
        let (i, j) = choose|i: int, j: int|
            0 <= i < s.len() && 0 <= j < s.len() && #[trigger] s[i] != #[trigger] s[j];
        assert(s.contains(s[i]) && s.contains(s[j]));
        assert(d.contains(s[i]) && d.contains(s[j]));
        let a = choose|a: int| 0 <= a < d.len() && d[a] == s[i];
        let b = choose|b: int| 0 <= b < d.len() && d[b] == s[j];
        assert(a != b);
    }
}

/// Field `i` stands in every stem as a number or letters, not the same in all, and with one
/// segment type in all.
pub open spec fn telling(cores: Seq<Seq<FieldModel>>, i: int) -> bool {
    &&& cores.len() > 0
    &&& forall|c: int|
        0 <= c < cores.len() ==> 0 <= i < (#[trigger] cores[c]).len() && (cores[c][i].kind
            == FieldKind::Digit || cores[c][i].kind == FieldKind::Alpha || cores[c][i].kind
            == FieldKind::CjkAlpha) && segment_of(cores[c][i].text) == segment_of(
            cores[0][i].text,
        )
    &&& exists|c: int, d: int|
        0 <= c < cores.len() && 0 <= d < cores.len() && (#[trigger] cores[c])[i].text != (
        #[trigger] cores[d])[i].text
}

/// Field `i` differs in all stems.
pub open spec fn all_differ(cores: Seq<Seq<FieldModel>>, i: int) -> bool {
    forall|c: int, d: int|
        0 <= c < d < cores.len() ==> (#[trigger] cores[c])[i].text != (#[trigger] cores[d])[i].text
}

/// In how many stems field `i` stands beside an episode marker.
pub open spec fn marker_stems(cores: Seq<Seq<FieldModel>>, i: int) -> nat {
    count_of(cores, |f: Seq<FieldModel>| beside_marker(f, i))
}

proof fn lemma_telling(cores: Seq<Seq<FieldModel>>, i: int)
    ensures
        eligible(cores, i) <==> telling(cores, i),
        telling(cores, i) ==> field_score(cores, i) == 1000 * marker_stems(cores, i) + 10
            * segment_of(cores[0][i].text).weight() + if all_differ(cores, i) {
            1int
        } else {
            0int
        },
{
    let t = texts_at(cores, i);
    lemma_distinct_two(t);
    lemma_distinct_full(t);
    if telling(cores, i) {
        let (c, d) = choose|c: int, d: int|
            0 <= c < cores.len() && 0 <= d < cores.len() && (#[trigger] cores[c])[i].text != (
            #[trigger] cores[d])[i].text;
        assert(t[c] != t[d]);
        assert forall|c: int| 0 <= c < cores.len() implies segment_of(#[trigger] t[c])
            == segment_of(t[0]) by {
            assert(segment_of(cores[c][i].text) == segment_of(cores[0][i].text));
        }
        assert(all_have(cores, i));
        assert(eligible(cores, i));
        if all_differ(cores, i) {
            assert forall|a: int, b: int|
                0 <= a < t.len() && 0 <= b < t.len() && a != b implies t[a] != t[b] by {
                if a < b {
                    assert(cores[a][i].text != cores[b][i].text);
                } else {
                    assert(cores[b][i].text != cores[a][i].text);
                }
            }
        } else {
            let (c, d) = choose|c: int, d: int|
                0 <= c < d < cores.len() && (#[trigger] cores[c])[i].text == (
                #[trigger] cores[d])[i].text;
            assert(t[c] == t[d]);
        }
    }
    if eligible(cores, i) {
        let (c, d) = choose|c: int, d: int|
            0 <= c < t.len() && 0 <= d < t.len() && #[trigger] t[c] != #[trigger] t[d];
        assert(cores[c][i].text != cores[d][i].text);
        assert forall|c: int| 0 <= c < cores.len() implies 0 <= i < (#[trigger] cores[c]).len() && (
        cores[c][i].kind == FieldKind::Digit || cores[c][i].kind == FieldKind::Alpha
            || cores[c][i].kind == FieldKind::CjkAlpha) && segment_of(cores[c][i].text)
            == segment_of(cores[0][i].text) by {
            assert(keyable(cores[c][i].kind));
            assert(segment_of(t[c]) == segment_of(t[0]));
        }
    }
}

/// The field that is chosen tells the stems apart. Of any other that does, it stands beside
/// a marker in more stems, or in as many and is of a heavier segment type, or is level in
/// both and differs in all stems where the other does not, or is level in all that and
/// stands further to the left. None is chosen only where no field tells the stems apart.
pub proof fn law_field_chosen(cores: Seq<Seq<FieldModel>>, j: int)
    ensures
        match best_field(cores) {
            Some(i) => telling(cores, i) && (telling(cores, j) ==> {
                let m = marker_stems(cores, i);
                let n = marker_stems(cores, j);
                let v = segment_of(cores[0][i].text).weight();
                let w = segment_of(cores[0][j].text).weight();
                ||| m > n
                ||| m == n && v > w
                ||| m == n && v == w && all_differ(cores, i) && !all_differ(cores, j)
                ||| m == n && v == w && all_differ(cores, i) == all_differ(cores, j) && i <= j
            }),
            None => !telling(cores, j),
        },
{
    law_best_field(cores);
    lemma_telling(cores, j);
    if let Some(i) = best_field(cores) {
        lemma_telling(cores, i);
    }
}

/// The key of each stem is the text of the field that is chosen, where it is a number,
/// letters, or other letters and numbers outside ASCII.
pub proof fn law_keys_in_field(cores: Seq<Seq<FieldModel>>, c: int)
    requires
        0 <= c < cores.len(),
        best_field(cores) is Some,
    ensures
        keys_in(cores) is Some,
        keys_in(cores)->0.len() == cores.len(),
        keys_in(cores)->0[c] == Some(cores[c][best_field(cores)->0].text),
{
    law_best_field(cores);
    assert(keyable(cores[c][best_field(cores)->0].kind));
}

/// Where no field tells the stems apart, there are keys only if every stem has a single
/// field. Each is the text of that field, where it is a number, letters, or letters and
/// numbers outside ASCII, and absent where it is not.
pub proof fn law_keys_in_only_field(cores: Seq<Seq<FieldModel>>)
    requires
        best_field(cores) is None,
    ensures
        keys_in(cores) is Some <==> forall|c: int|
            0 <= c < cores.len() ==> (#[trigger] cores[c]).len() == 1,
        keys_in(cores) matches Some(keys) ==> keys.len() == cores.len() && forall|c: int|
            0 <= c < cores.len() ==> #[trigger] keys[c] == if cores[c][0].kind == FieldKind::Digit
                || cores[c][0].kind == FieldKind::Alpha || cores[c][0].kind == FieldKind::CjkAlpha
                || cjk_text(cores[c][0]) {
                Some(cores[c][0].text)
            } else {
                None
            },
{
    if forall|c: int| 0 <= c < cores.len() ==> (#[trigger] cores[c]).len() == 1 {
        let keys = keys_in(cores)->0;
        assert forall|c: int| 0 <= c < cores.len() implies #[trigger] keys[c] == key_at(
            cores[c],
            0,
        ) by {
            assert(cores[c].len() == 1);
        }
        assert forall|c: int| 0 <= c < cores.len() implies #[trigger] keys[c] == if cores[c][0].kind
            == FieldKind::Digit || cores[c][0].kind == FieldKind::Alpha || cores[c][0].kind
            == FieldKind::CjkAlpha || cjk_text(cores[c][0]) {
            Some(cores[c][0].text)
        } else {
            None
        } by {
            assert(cores[c].len() == 1);
        }
    }
}

// ---------------------------------------------------------------------------
// Groups of stems
// ---------------------------------------------------------------------------
/// A stem alone has its own key, taken from the stem as it stands.
pub proof fn law_lone_stem(stem: Seq<char>)
    ensures
        raw_keys(seq![stem]) == seq![single_key(fields_of(stem))],
{
    assert(raw_keys(seq![stem]) =~= seq![single_key(fields_of(stem))]);
}

/// Two stems or more are compared in comparable form. What varies is each without the start
/// and the end that all share, and the keys are those that it holds. Where nothing of the
/// first stem varies or no field holds the keys, each stem has its own key.
pub proof fn law_group_of_stems(stems: Seq<Seq<char>>, i: int)
    requires
        stems.len() > 1,
        0 <= i < stems.len(),
    ensures
        ({
            let c = comparables(stems);
            let p = head_len(c);
            let q = tail_len(c);
            let cores = all_fields(inner_parts(c));
            &&& c.len() == stems.len() && c[i] == comparable(stems[i])
            &&& cores.len() == stems.len() && cores[i] == fields_of(
                if p + q <= c[i].len() {
                    c[i].subrange(p, c[i].len() - q)
                } else {
                    Seq::empty()
                },
            )
            &&& raw_keys(stems).len() == stems.len()
            &&& raw_keys(stems)[i] == if p + q < c[0].len() && keys_in(cores) is Some {
                keys_in(cores)->0[i]
            } else {
                single_key(fields_of(c[i]))
            }
        }),
{
    law_one_key_each(stems);
}

/// The comparable form of a stem in ASCII is the stem, that of any other its NFKD form, with
/// the spaces and tabs folded.
pub proof fn law_comparable(s: Seq<char>)
    ensures
        (forall|i: int| 0 <= i < s.len() ==> #[trigger] s[i] as u32 <= 127) ==> comparable(s)
            == folded(s),
        (exists|i: int| 0 <= i < s.len() && #[trigger] s[i] as u32 > 127) ==> comparable(s)
            == folded(nfkd_form(s)),
{
    if exists|i: int| 0 <= i < s.len() && #[trigger] s[i] as u32 > 127 {
        let i = choose|i: int| 0 <= i < s.len() && #[trigger] s[i] as u32 > 127;
        assert(!ascii_char(s[i]));
        assert(!plain(s));
    } else {
        assert(plain(s));
    }
}

/// A pattern of the user's takes its first group out of each stem by itself. One that is
/// not valid takes nothing.
pub proof fn law_pattern_keys(pattern: Seq<char>, stems: Seq<Seq<char>>, i: int)
    requires
        0 <= i < stems.len(),
    ensures
        pattern_keys(pattern, stems).len() == stems.len(),
        regex_valid(pattern) ==> pattern_keys(pattern, stems)[i] == regex_group(
            pattern,
            stems[i],
            1,
        ),
        !regex_valid(pattern) ==> pattern_keys(pattern, stems)[i] is None,
{
}

} // verus!
