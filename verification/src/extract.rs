//! Raw keys of a group of stems: what varies once the shared ends are gone.

use vstd::prelude::*;
use vstd::string::*;
use vstd::utf8::encode_utf8;

use crate::fields::{
    beside_marker, cjk_text, classify, field_models, fields_of, is_cjk_text_field, near_marker,
    segment_of, single_key, single_with, split_with, stem_models, Field, FieldKind, FieldModel,
};
use crate::key::{raw_views, RawKey};
use crate::normalize::str_views;
use crate::pattern::{
    compile, find_group, regex_group, regex_source, regex_valid, views, Patterns,
};
use crate::sorting::{count_of, distinct};
use crate::stem::{comparable, normalize_stem};
use crate::text::{begins_with, chars_of, copy_of, same_str, string_of_range};

verus! {

// ---------------------------------------------------------------------------
// Shared ends
// ---------------------------------------------------------------------------
/// Every stem begins with the first `n` characters of the first stem.
pub open spec fn share_head(stems: Seq<Seq<char>>, n: int) -> bool {
    forall|k: int| 0 <= k < stems.len() ==> begins_with(#[trigger] stems[k], stems[0].take(n))
}

/// The largest number up to `n` of characters that the stems share at the start.
pub open spec fn head_up_to(stems: Seq<Seq<char>>, n: int) -> int
    decreases n,
{
    if n <= 0 || share_head(stems, n) {
        n
    } else {
        head_up_to(stems, n - 1)
    }
}

/// The number of characters that all stems share at the start.
pub open spec fn head_len(stems: Seq<Seq<char>>) -> int {
    if stems.len() == 0 {
        0
    } else {
        head_up_to(stems, stems[0].len() as int)
    }
}

/// The stems read backwards.
pub open spec fn backwards(stems: Seq<Seq<char>>) -> Seq<Seq<char>> {
    Seq::new(stems.len(), |i: int| stems[i].reverse())
}

/// The number of characters that all stems share at the end.
pub open spec fn tail_len(stems: Seq<Seq<char>>) -> int {
    head_len(backwards(stems))
}

proof fn lemma_head_shrinks(s: Seq<char>, t: Seq<char>, m: int, n: int)
    requires
        0 <= m <= n <= t.len(),
        begins_with(s, t.take(n)),
    ensures
        begins_with(s, t.take(m)),
{
    assert(s.subrange(0, m) =~= s.subrange(0, n).subrange(0, m));
    assert(t.take(m) =~= t.take(n).subrange(0, m));
    assert(s.subrange(0, m) =~= t.take(m));
}

proof fn lemma_head_up_to(stems: Seq<Seq<char>>, n: int, k: int)
    requires
        stems.len() > 0,
        0 <= k <= n <= stems[0].len(),
        share_head(stems, k),
        forall|m: int| k < m <= n ==> !#[trigger] share_head(stems, m),
    ensures
        head_up_to(stems, n) == k,
    decreases n,
{
    if k < n {
        assert(!share_head(stems, n));
        lemma_head_up_to(stems, n - 1, k);
    }
}

/// The shared start is shared by all, no longer start is, and it fits in the
/// first stem.
pub proof fn law_longest_head(stems: Seq<Seq<char>>)
    requires
        stems.len() > 0,
    ensures
        0 <= head_len(stems) <= stems[0].len(),
        share_head(stems, head_len(stems)),
        forall|m: int|
            head_len(stems) < m <= stems[0].len() ==> !#[trigger] share_head(stems, m),
{
    lemma_head_from(stems, stems[0].len() as int);
}

proof fn lemma_head_from(stems: Seq<Seq<char>>, n: int)
    requires
        stems.len() > 0,
        0 <= n <= stems[0].len(),
    ensures
        0 <= head_up_to(stems, n) <= n,
        share_head(stems, head_up_to(stems, n)),
        forall|m: int| head_up_to(stems, n) < m <= n ==> !#[trigger] share_head(stems, m),
    decreases n,
{
    if n == 0 {
        assert forall|k: int| 0 <= k < stems.len() implies begins_with(
            #[trigger] stems[k],
            stems[0].take(0),
        ) by {
            assert(stems[k].subrange(0, 0) =~= stems[0].take(0));
        }
    } else if !share_head(stems, n) {
        lemma_head_from(stems, n - 1);
    }
}

/// The characters of each vector.
pub open spec fn char_views(v: Seq<Vec<char>>) -> Seq<Seq<char>> {
    Seq::new(v.len(), |i: int| v[i]@)
}

/// The number of characters that all stems share at the start.
fn shared_head(stems: &Vec<Vec<char>>) -> (r: usize)
    ensures
        r == head_len(char_views(stems@)),
        stems@.len() > 0 ==> r <= stems@[0]@.len(),
{
    if stems.len() == 0 {
        return 0;
    }
    let ghost all = char_views(stems@);
    let ghost first = all[0];
    let mut n: usize = stems[0].len();
    let mut k: usize = 0;
    while k < stems.len()
        invariant
            all == char_views(stems@),
            first == all[0],
            all.len() > 0,
            stems@[0]@ == first,
            k <= stems@.len(),
            n <= first.len(),
            forall|j: int| 0 <= j < k ==> begins_with(#[trigger] all[j], first.take(n as int)),
            n < first.len() ==> exists|j: int|
                0 <= j < k && !begins_with(#[trigger] all[j], first.take(n + 1)),
        decreases stems@.len() - k,
    {
        let s = &stems[k];
        let ghost before = n;
        let mut m: usize = 0;
        while m < n && m < s.len() && stems[0][m] == s[m]
            invariant
                stems@.len() > 0,
                stems@[0]@ == first,
                n <= first.len(),
                m <= n,
                m <= s@.len(),
                forall|j: int| 0 <= j < m ==> first[j] == s@[j],
            decreases n - m,
        {
            m += 1;
        }
        proof {
            assert(all[k as int] == s@);
            assert(s@.subrange(0, m as int) =~= first.take(m as int));
            assert forall|j: int| 0 <= j < k implies begins_with(
                #[trigger] all[j],
                first.take(m as int),
            ) by {
                lemma_head_shrinks(all[j], first, m as int, before as int);
            }
            if m < before {
                if begins_with(all[k as int], first.take(m + 1)) {
                    assert(s@.subrange(0, m + 1)[m as int] == first.take(m + 1)[m as int]);
                }
            }
        }
        n = m;
        k += 1;
    }
    proof {
        assert(share_head(all, n as int));
        assert forall|m: int| n < m <= first.len() implies !#[trigger] share_head(all, m) by {
            let j = choose|j: int|
                0 <= j < k && !begins_with(#[trigger] all[j], first.take(n + 1));
            if begins_with(all[j], first.take(m)) {
                lemma_head_shrinks(all[j], first, n + 1, m);
            }
        }
        lemma_head_up_to(all, first.len() as int, n as int);
    }
    n
}

/// The characters of `s` in reverse.
fn reversed(s: &Vec<char>) -> (r: Vec<char>)
    ensures
        r@ == s@.reverse(),
{
    let mut out: Vec<char> = Vec::new();
    let mut i: usize = s.len();
    while i > 0
        invariant
            i <= s@.len(),
            out@.len() == s@.len() - i,
            forall|j: int| 0 <= j < out@.len() ==> out@[j] == s@.reverse()[j],
        decreases i,
    {
        i -= 1;
        out.push(s[i]);
    }
    assert(out@ =~= s@.reverse());
    out
}

/// The number of characters that all stems share at the end.
fn shared_tail(stems: &Vec<Vec<char>>) -> (r: usize)
    ensures
        r == tail_len(char_views(stems@)),
        stems@.len() > 0 ==> r <= stems@[0]@.len(),
{
    let mut back: Vec<Vec<char>> = Vec::new();
    let mut i: usize = 0;
    while i < stems.len()
        invariant
            i <= stems@.len(),
            back@.len() == i,
            forall|j: int| 0 <= j < i ==> (#[trigger] back@[j])@ == stems@[j]@.reverse(),
        decreases stems@.len() - i,
    {
        back.push(reversed(&stems[i]));
        i += 1;
    }
    assert(char_views(back@) =~= backwards(char_views(stems@)));
    shared_head(&back)
}

/// The characters of each stem.
fn all_chars_of(stems: &[&str]) -> (r: Vec<Vec<char>>)
    ensures
        char_views(r@) == str_views(stems@),
{
    let mut out: Vec<Vec<char>> = Vec::new();
    let mut i: usize = 0;
    while i < stems.len()
        invariant
            i <= stems@.len(),
            out@.len() == i,
            forall|j: int| 0 <= j < i ==> (#[trigger] out@[j])@ == stems@[j]@,
        decreases stems@.len() - i,
    {
        out.push(chars_of(stems[i]));
        i += 1;
    }
    assert(char_views(out@) =~= str_views(stems@));
    out
}

/// The number of bytes that `s` takes.
pub open spec fn byte_len(s: Seq<char>) -> usize {
    encode_utf8(s).len() as usize
}

/// The number of bytes that all stems share at the start, in whole characters.
pub fn common_prefix_len(stems: &[&str]) -> (r: usize)
    ensures
        stems@.len() == 0 ==> r == 0,
        stems@.len() > 0 ==> r == byte_len(stems@[0]@.take(head_len(str_views(stems@)))),
{
    if stems.len() == 0 {
        return 0;
    }
    let chars = all_chars_of(stems);
    let n = shared_head(&chars);
    assert(char_views(chars@)[0] == str_views(stems@)[0]);
    let s = string_of_range(&chars[0], 0, n);
    assert(s@ =~= stems@[0]@.take(n as int));
    s.as_str().len()
}

/// The number of bytes that all stems share at the end, in whole characters.
pub fn common_suffix_len(stems: &[&str]) -> (r: usize)
    ensures
        stems@.len() == 0 ==> r == 0,
        stems@.len() > 0 ==> r == byte_len(
            stems@[0]@.skip(stems@[0]@.len() - tail_len(str_views(stems@))),
        ),
{
    if stems.len() == 0 {
        return 0;
    }
    let chars = all_chars_of(stems);
    let n = shared_tail(&chars);
    assert(char_views(chars@)[0] == str_views(stems@)[0]);
    let len = chars[0].len();
    let s = string_of_range(&chars[0], len - n, len);
    assert(s@ =~= stems@[0]@.skip(len - n));
    s.as_str().len()
}

// ---------------------------------------------------------------------------
// The field that varies
// ---------------------------------------------------------------------------
/// Fields of this kind can hold a key.
pub open spec fn keyable(k: FieldKind) -> bool {
    k == FieldKind::Digit || k == FieldKind::Alpha || k == FieldKind::CjkAlpha
}

/// The text of field `i` of each stem.
pub open spec fn texts_at(cores: Seq<Seq<FieldModel>>, i: int) -> Seq<Seq<char>> {
    Seq::new(cores.len(), |c: int| cores[c][i].text)
}

/// Every stem has a field `i` that can hold a key.
pub open spec fn all_have(cores: Seq<Seq<FieldModel>>, i: int) -> bool {
    forall|c: int|
        0 <= c < cores.len() ==> 0 <= i < (#[trigger] cores[c]).len() && keyable(cores[c][i].kind)
}

/// Field `i` can be the one that tells the stems apart: every stem has it, it is
/// not the same in all, and its texts are of one segment type.
pub open spec fn eligible(cores: Seq<Seq<FieldModel>>, i: int) -> bool {
    &&& cores.len() > 0
    &&& all_have(cores, i)
    &&& distinct(texts_at(cores, i)).len() >= 2
    &&& forall|c: int|
        0 <= c < cores.len() ==> segment_of(#[trigger] texts_at(cores, i)[c]) == segment_of(
            texts_at(cores, i)[0],
        )
}

/// How well field `i` tells the stems apart: first the number of stems in which it
/// stands beside an episode marker, then its segment type, then whether it differs
/// in all stems.
pub open spec fn field_score(cores: Seq<Seq<FieldModel>>, i: int) -> int {
    1000 * count_of(cores, |f: Seq<FieldModel>| beside_marker(f, i)) + 10 * segment_of(
        texts_at(cores, i)[0],
    ).weight() + if distinct(texts_at(cores, i)).len() == cores.len() {
        1int
    } else {
        0int
    }
}

/// The best of the first `n` fields: the leftmost one of the highest score.
pub open spec fn best_of(cores: Seq<Seq<FieldModel>>, n: int) -> Option<int>
    decreases n,
{
    if n <= 0 {
        None
    } else {
        let b = best_of(cores, n - 1);
        if eligible(cores, n - 1) && (b matches Some(j) ==> field_score(cores, j) < field_score(
            cores,
            n - 1,
        )) {
            Some(n - 1)
        } else {
            b
        }
    }
}

/// The field that tells the stems apart best.
pub open spec fn best_field(cores: Seq<Seq<FieldModel>>) -> Option<int> {
    if cores.len() == 0 {
        None
    } else {
        best_of(cores, cores[0].len() as int)
    }
}

proof fn lemma_best_of(cores: Seq<Seq<FieldModel>>, n: int)
    ensures
        match best_of(cores, n) {
            Some(i) => 0 <= i < n && eligible(cores, i) && forall|j: int|
                0 <= j < n && #[trigger] eligible(cores, j) ==> field_score(cores, j)
                    < field_score(cores, i) || (field_score(cores, j) == field_score(cores, i) && i
                    <= j),
            None => forall|j: int| 0 <= j < n ==> !#[trigger] eligible(cores, j),
        },
    decreases n,
{
    if n > 0 {
        lemma_best_of(cores, n - 1);
    }
}

/// The chosen field can tell the stems apart, none has a higher score, and of
/// those with its score it is the leftmost. None is chosen only where none can
/// tell the stems apart.
pub proof fn law_best_field(cores: Seq<Seq<FieldModel>>)
    ensures
        match best_field(cores) {
            Some(i) => eligible(cores, i) && forall|j: int| #[trigger]
                eligible(cores, j) ==> field_score(cores, j) < field_score(cores, i) || (
                field_score(cores, j) == field_score(cores, i) && i <= j),
            None => forall|j: int| !#[trigger] eligible(cores, j),
        },
{
    if cores.len() > 0 {
        lemma_best_of(cores, cores[0].len() as int);
        assert forall|j: int| #[trigger] eligible(cores, j) implies 0 <= j < cores[0].len() by {
            assert(0 <= j < cores[0].len());
        }
    }
}

/// Whether every stem has a field `i` that can hold a key.
fn have_all(cores: &Vec<Vec<Field>>, i: usize) -> (r: bool)
    ensures
        r == all_have(stem_models(cores@), i as int),
{
    let ghost all = stem_models(cores@);
    let mut c: usize = 0;
    while c < cores.len()
        invariant
            all == stem_models(cores@),
            c <= cores@.len(),
            forall|j: int|
                0 <= j < c ==> 0 <= i < (#[trigger] all[j]).len() && keyable(all[j][i as int].kind),
        decreases cores@.len() - c,
    {
        assert(all[c as int].len() == cores@[c as int]@.len());
        if i >= cores[c].len() {
            return false;
        }
        assert(all[c as int][i as int] == cores@[c as int]@[i as int]@);
        match cores[c][i].kind {
            FieldKind::Digit | FieldKind::Alpha | FieldKind::CjkAlpha => {},
            _ => {
                return false;
            },
        }
        c += 1;
    }
    true
}

/// The text of field `i` of each stem.
fn texts_of(cores: &Vec<Vec<Field>>, i: usize) -> (r: Vec<String>)
    requires
        forall|c: int| 0 <= c < cores@.len() ==> i < (#[trigger] cores@[c])@.len(),
    ensures
        views(r@) == texts_at(stem_models(cores@), i as int),
{
    let ghost all = stem_models(cores@);
    let mut out: Vec<String> = Vec::new();
    let mut c: usize = 0;
    while c < cores.len()
        invariant
            all == stem_models(cores@),
            c <= cores@.len(),
            forall|c: int| 0 <= c < cores@.len() ==> i < (#[trigger] cores@[c])@.len(),
            out@.len() == c,
            forall|j: int| 0 <= j < c ==> (#[trigger] out@[j])@ == all[j][i as int].text,
        decreases cores@.len() - c,
    {
        assert(all[c as int][i as int] == cores@[c as int]@[i as int]@);
        out.push(copy_of(cores[c][i].text.as_str()));
        c += 1;
    }
    assert(views(out@) =~= texts_at(all, i as int));
    out
}

/// Whether one of the strings of `v` is `t`.
pub fn holds_string(v: &Vec<String>, t: &str) -> (r: bool)
    ensures
        r == views(v@).contains(t@),
{
    let ghost all = views(v@);
    let mut i: usize = 0;
    while i < v.len()
        invariant
            all == views(v@),
            i <= v@.len(),
            forall|j: int| 0 <= j < i ==> all[j] != t@,
        decreases v@.len() - i,
    {
        if same_str(v[i].as_str(), t) {
            assert(all[i as int] == t@);
            return true;
        }
        i += 1;
    }
    false
}

/// The distinct strings of `v`, in the order in which they first occur.
pub fn distinct_strings(v: &Vec<String>) -> (r: Vec<String>)
    ensures
        views(r@) == distinct(views(v@)),
{
    let mut out: Vec<String> = Vec::new();
    let mut i: usize = 0;
    assert(views(out@) =~= distinct(views(v@).take(0)));
    while i < v.len()
        invariant
            i <= v@.len(),
            views(out@) == distinct(views(v@).take(i as int)),
        decreases v@.len() - i,
    {
        let ghost seen = views(out@);
        let known = holds_string(&out, v[i].as_str());
        proof {
            assert(views(v@).take(i + 1).drop_last() =~= views(v@).take(i as int));
            assert(views(v@).take(i + 1).last() == v@[i as int]@);
        }
        if !known {
            out.push(copy_of(v[i].as_str()));
            assert(views(out@) =~= seen.push(v@[i as int]@));
        }
        i += 1;
    }
    assert(views(v@).take(i as int) =~= views(v@));
    out
}

/// Whether all texts are of one segment type.
fn one_type(v: &Vec<String>) -> (r: bool)
    requires
        v@.len() > 0,
    ensures
        r == forall|c: int|
            0 <= c < v@.len() ==> segment_of(#[trigger] views(v@)[c]) == segment_of(views(v@)[0]),
{
    let first = classify(v[0].as_str());
    let mut i: usize = 0;
    while i < v.len()
        invariant
            v@.len() > 0,
            i <= v@.len(),
            first == segment_of(views(v@)[0]),
            forall|c: int|
                0 <= c < i ==> segment_of(#[trigger] views(v@)[c]) == segment_of(views(v@)[0]),
        decreases v@.len() - i,
    {
        let t = classify(v[i].as_str());
        assert(t == segment_of(views(v@)[i as int]));
        if t != first {
            return false;
        }
        i += 1;
    }
    true
}

/// The number of stems in which field `i` stands beside an episode marker.
fn marker_count(cores: &Vec<Vec<Field>>, i: usize) -> (r: usize)
    ensures
        r == count_of(
            stem_models(cores@),
            |f: Seq<FieldModel>| beside_marker(f, i as int),
        ),
{
    let ghost all = stem_models(cores@);
    let ghost p = |f: Seq<FieldModel>| beside_marker(f, i as int);
    let mut n: usize = 0;
    let mut c: usize = 0;
    while c < cores.len()
        invariant
            all == stem_models(cores@),
            p == (|f: Seq<FieldModel>| beside_marker(f, i as int)),
            c <= cores@.len(),
            n <= c,
            n == count_of(all.take(c as int), p),
        decreases cores@.len() - c,
    {
        proof {
            assert(all.take(c + 1).drop_last() =~= all.take(c as int));
            assert(all.take(c + 1).last() == field_models(cores@[c as int]@));
        }
        if near_marker(&cores[c], i) {
            n += 1;
        }
        c += 1;
    }
    assert(all.take(c as int) =~= all);
    n
}

/// The score of field `i`, where it can tell the stems apart.
fn score_of(cores: &Vec<Vec<Field>>, i: usize) -> (r: Option<u128>)
    ensures
        match r {
            Some(n) => eligible(stem_models(cores@), i as int) && n == field_score(
                stem_models(cores@),
                i as int,
            ),
            None => !eligible(stem_models(cores@), i as int),
        },
{
    let ghost all = stem_models(cores@);
    if cores.len() == 0 || !have_all(cores, i) {
        return None;
    }
    assert forall|c: int| 0 <= c < cores@.len() implies i < (#[trigger] cores@[c])@.len() by {
        assert(all[c].len() == cores@[c]@.len());
    }
    let texts = texts_of(cores, i);
    let ghost t = texts_at(all, i as int);
    assert(t.len() == cores@.len());
    assert(views(texts@).len() == texts@.len());
    let d = distinct_strings(&texts);
    assert(views(d@).len() == d@.len());
    if d.len() < 2 || !one_type(&texts) {
        return None;
    }
    let markers = marker_count(cores, i);
    let weight = classify(texts[0].as_str()).score();
    assert(texts@[0]@ == t[0]);
    let extra: u128 = if d.len() == cores.len() {
        1
    } else {
        0
    };
    Some(1000 * markers as u128 + 10 * weight as u128 + extra)
}

/// The field that tells the stems apart best, or `None` where no field can.
pub fn rank_variable_field(cores: &Vec<Vec<Field>>) -> (r: Option<usize>)
    ensures
        match r {
            Some(i) => best_field(stem_models(cores@)) == Some(i as int),
            None => best_field(stem_models(cores@)) is None,
        },
{
    if cores.len() == 0 {
        return None;
    }
    let ghost all = stem_models(cores@);
    assert(all[0].len() == cores@[0]@.len());
    let mut best: Option<usize> = None;
    let mut best_score: u128 = 0;
    let mut i: usize = 0;
    while i < cores[0].len()
        invariant
            all == stem_models(cores@),
            cores@.len() > 0,
            i <= cores@[0]@.len(),
            match best {
                Some(b) => best_of(all, i as int) == Some(b as int) && best_score == field_score(
                    all,
                    b as int,
                ),
                None => best_of(all, i as int) is None,
            },
        decreases cores@[0]@.len() - i,
    {
        if let Some(n) = score_of(cores, i) {
            if best.is_none() || best_score < n {
                best = Some(i);
                best_score = n;
            }
        }
        i += 1;
    }
    best
}

// ---------------------------------------------------------------------------
// Keys
// ---------------------------------------------------------------------------
/// The field that holds the keys: the one that tells the stems apart best, or the
/// only one where each stem has one field.
pub open spec fn key_field(cores: Seq<Seq<FieldModel>>) -> Option<int> {
    match best_field(cores) {
        Some(i) => Some(i),
        None => if forall|c: int| 0 <= c < cores.len() ==> (#[trigger] cores[c]).len() == 1 {
            Some(0)
        } else {
            None
        },
    }
}

/// The key that field `i` of a stem holds.
pub open spec fn key_at(fields: Seq<FieldModel>, i: int) -> Option<Seq<char>> {
    if 0 <= i < fields.len() && (keyable(fields[i].kind) || cjk_text(fields[i])) {
        Some(fields[i].text)
    } else {
        None
    }
}

/// The keys that the fields `cores` of the stems hold, or `None` where no field
/// holds them.
pub open spec fn keys_in(cores: Seq<Seq<FieldModel>>) -> Option<Seq<Option<Seq<char>>>> {
    match key_field(cores) {
        Some(i) => Some(Seq::new(cores.len(), |c: int| key_at(cores[c], i))),
        None => None,
    }
}

/// The keys that the fields of the stems hold, or `None` where no field holds them.
pub fn keys_from_fields(cores: &Vec<Vec<Field>>) -> (r: Option<Vec<RawKey>>)
    ensures
        match r {
            Some(v) => keys_in(stem_models(cores@)) == Some(raw_views(v@)),
            None => keys_in(stem_models(cores@)) is None,
        },
{
    let ghost all = stem_models(cores@);
    let i: usize = match rank_variable_field(cores) {
        Some(i) => i,
        None => {
            let mut c: usize = 0;
            while c < cores.len()
                invariant
                    all == stem_models(cores@),
                    c <= cores@.len(),
                    best_field(all) is None,
                    forall|j: int| 0 <= j < c ==> (#[trigger] all[j]).len() == 1,
                decreases cores@.len() - c,
            {
                assert(all[c as int].len() == cores@[c as int]@.len());
                if cores[c].len() != 1 {
                    return None;
                }
                c += 1;
            }
            0
        },
    };
    assert(key_field(all) == Some(i as int));
    let mut out: Vec<RawKey> = Vec::new();
    let mut c: usize = 0;
    while c < cores.len()
        invariant
            all == stem_models(cores@),
            c <= cores@.len(),
            out@.len() == c,
            forall|j: int| 0 <= j < c ==> (#[trigger] out@[j])@ == key_at(all[j], i as int),
        decreases cores@.len() - c,
    {
        let mut key = RawKey(None);
        assert(all[c as int].len() == cores@[c as int]@.len());
        if i < cores[c].len() {
            let f = &cores[c][i];
            assert(all[c as int][i as int] == f@);
            let kept = match f.kind {
                FieldKind::Digit | FieldKind::Alpha | FieldKind::CjkAlpha => true,
                _ => is_cjk_text_field(f),
            };
            if kept {
                key = RawKey(Some(copy_of(f.text.as_str())));
            }
        }
        out.push(key);
        c += 1;
    }
    assert(raw_views(out@) =~= Seq::new(all.len(), |c: int| key_at(all[c], i as int)));
    Some(out)
}

/// What is left of `s` without `p` characters at the start and `q` at the end,
/// nothing where these overlap.
pub open spec fn inner(s: Seq<char>, p: int, q: int) -> Seq<char> {
    if p + q <= s.len() {
        s.subrange(p, s.len() - q)
    } else {
        Seq::empty()
    }
}

/// The fields of each text.
pub open spec fn all_fields(texts: Seq<Seq<char>>) -> Seq<Seq<FieldModel>> {
    Seq::new(texts.len(), |i: int| fields_of(texts[i]))
}

/// What varies in each stem: the stem without the ends that all share.
pub open spec fn inner_parts(stems: Seq<Seq<char>>) -> Seq<Seq<char>> {
    Seq::new(stems.len(), |i: int| inner(stems[i], head_len(stems), tail_len(stems)))
}

/// The key of each stem on its own.
pub open spec fn single_keys(stems: Seq<Seq<char>>) -> Seq<Option<Seq<char>>> {
    Seq::new(stems.len(), |i: int| single_key(fields_of(stems[i])))
}

/// The keys of two stems or more in comparable form: those that what varies in them
/// holds, or else the key of each on its own.
pub open spec fn group_keys(stems: Seq<Seq<char>>) -> Seq<Option<Seq<char>>> {
    if head_len(stems) + tail_len(stems) >= stems[0].len() {
        single_keys(stems)
    } else {
        match keys_in(all_fields(inner_parts(stems))) {
            Some(keys) => keys,
            None => single_keys(stems),
        }
    }
}

/// The comparable form of each stem.
pub open spec fn comparables(stems: Seq<Seq<char>>) -> Seq<Seq<char>> {
    Seq::new(stems.len(), |i: int| comparable(stems[i]))
}

/// The raw keys of a group of stems. A stem that is alone is taken as it stands.
pub open spec fn raw_keys(stems: Seq<Seq<char>>) -> Seq<Option<Seq<char>>> {
    if stems.len() <= 1 {
        single_keys(stems)
    } else {
        group_keys(comparables(stems))
    }
}

/// Each stem has one key, which may be absent.
pub proof fn law_one_key_each(stems: Seq<Seq<char>>)
    ensures
        raw_keys(stems).len() == stems.len(),
{
    let c = comparables(stems);
    if let Some(i) = key_field(all_fields(inner_parts(c))) {
        assert(keys_in(all_fields(inner_parts(c))) is Some);
    }
}

/// The key of each stem on its own.
pub fn singles_with(patterns: &Patterns, stems: &Vec<String>) -> (r: Vec<RawKey>)
    requires
        patterns.wf(),
    ensures
        raw_views(r@) == single_keys(views(stems@)),
{
    let mut out: Vec<RawKey> = Vec::new();
    let mut i: usize = 0;
    while i < stems.len()
        invariant
            patterns.wf(),
            i <= stems@.len(),
            out@.len() == i,
            forall|j: int|
                0 <= j < i ==> (#[trigger] out@[j])@ == single_key(fields_of(stems@[j]@)),
        decreases stems@.len() - i,
    {
        out.push(single_with(patterns, stems[i].as_str()));
        i += 1;
    }
    assert(raw_views(out@) =~= single_keys(views(stems@)));
    out
}

/// The fields of each text.
pub fn split_all(patterns: &Patterns, texts: &Vec<String>) -> (r: Vec<Vec<Field>>)
    requires
        patterns.wf(),
    ensures
        stem_models(r@) == all_fields(views(texts@)),
        r@.len() == texts@.len(),
{
    let mut out: Vec<Vec<Field>> = Vec::new();
    let mut i: usize = 0;
    while i < texts.len()
        invariant
            patterns.wf(),
            i <= texts@.len(),
            out@.len() == i,
            forall|j: int|
                0 <= j < i ==> field_models((#[trigger] out@[j])@) == fields_of(texts@[j]@),
        decreases texts@.len() - i,
    {
        out.push(split_with(patterns, texts[i].as_str()));
        i += 1;
    }
    assert(stem_models(out@) =~= all_fields(views(texts@)));
    out
}

/// The comparable form of each stem.
pub fn normalize_stems(stems: &Vec<String>) -> (r: Vec<String>)
    ensures
        views(r@) == comparables(views(stems@)),
        r@.len() == stems@.len(),
{
    let mut out: Vec<String> = Vec::new();
    let mut i: usize = 0;
    while i < stems.len()
        invariant
            i <= stems@.len(),
            out@.len() == i,
            forall|j: int| 0 <= j < i ==> (#[trigger] out@[j])@ == comparable(stems@[j]@),
        decreases stems@.len() - i,
    {
        out.push(normalize_stem(stems[i].as_str()));
        i += 1;
    }
    assert(views(out@) =~= comparables(views(stems@)));
    out
}

/// The keys of two stems or more in comparable form.
fn group_with(patterns: &Patterns, stems: &Vec<String>) -> (r: Vec<RawKey>)
    requires
        patterns.wf(),
        stems@.len() > 0,
    ensures
        raw_views(r@) == group_keys(views(stems@)),
{
    let ghost all = views(stems@);
    let mut chars: Vec<Vec<char>> = Vec::new();
    let mut i: usize = 0;
    while i < stems.len()
        invariant
            i <= stems@.len(),
            chars@.len() == i,
            forall|j: int| 0 <= j < i ==> (#[trigger] chars@[j])@ == stems@[j]@,
        decreases stems@.len() - i,
    {
        chars.push(chars_of(stems[i].as_str()));
        i += 1;
    }
    assert(char_views(chars@) =~= all);
    let p = shared_head(&chars);
    let q = shared_tail(&chars);
    if q >= chars[0].len() - p {
        return singles_with(patterns, stems);
    }
    let mut parts: Vec<String> = Vec::new();
    let mut k: usize = 0;
    while k < chars.len()
        invariant
            all == views(stems@),
            chars@.len() == stems@.len(),
            forall|j: int| 0 <= j < chars@.len() ==> (#[trigger] chars@[j])@ == stems@[j]@,
            p == head_len(all),
            q == tail_len(all),
            k <= chars@.len(),
            parts@.len() == k,
            forall|j: int|
                0 <= j < k ==> (#[trigger] parts@[j])@ == inner(
                    stems@[j]@,
                    p as int,
                    q as int,
                ),
        decreases chars@.len() - k,
    {
        let len = chars[k].len();
        if p <= len && q <= len - p {
            let t = string_of_range(&chars[k], p, len - q);
            assert(t@ =~= inner(stems@[k as int]@, p as int, q as int));
            parts.push(t);
        } else {
            let t = string_of_range(&chars[k], 0, 0);
            assert(t@ =~= inner(stems@[k as int]@, p as int, q as int));
            parts.push(t);
        }
        k += 1;
    }
    assert(views(parts@) =~= inner_parts(all));
    let cores = split_all(patterns, &parts);
    match keys_from_fields(&cores) {
        Some(keys) => keys,
        None => singles_with(patterns, stems),
    }
}

/// The raw keys of a group of stems, with patterns that are compiled already.
pub fn extract_with(patterns: &Patterns, stems: &Vec<String>) -> (r: Vec<RawKey>)
    requires
        patterns.wf(),
    ensures
        raw_views(r@) == raw_keys(views(stems@)),
{
    if stems.len() <= 1 {
        singles_with(patterns, stems)
    } else {
        group_with(patterns, &normalize_stems(stems))
    }
}

/// A string for each slice.
pub fn owned(stems: &[&str]) -> (r: Vec<String>)
    ensures
        views(r@) == str_views(stems@),
{
    let mut out: Vec<String> = Vec::new();
    let mut i: usize = 0;
    while i < stems.len()
        invariant
            i <= stems@.len(),
            out@.len() == i,
            forall|j: int| 0 <= j < i ==> (#[trigger] out@[j])@ == stems@[j]@,
        decreases stems@.len() - i,
    {
        out.push(copy_of(stems[i]));
        i += 1;
    }
    assert(views(out@) =~= str_views(stems@));
    out
}

/// The raw keys of a group of stems, one for each. A key is absent where nothing
/// that varies is left of its stem.
pub fn extract_keys(stems: &[&str]) -> (r: Vec<RawKey>)
    ensures
        raw_views(r@) == raw_keys(str_views(stems@)),
{
    extract_with(&Patterns::new(), &owned(stems))
}

/// What group 1 of `pattern` takes out of `s`, where `pattern` is valid.
pub open spec fn pattern_key(pattern: Seq<char>, s: Seq<char>) -> Option<Seq<char>> {
    if regex_valid(pattern) {
        regex_group(pattern, s, 1)
    } else {
        None
    }
}

/// What group 1 of `pattern` takes out of each stem.
pub open spec fn pattern_keys(pattern: Seq<char>, stems: Seq<Seq<char>>) -> Seq<Option<Seq<char>>> {
    Seq::new(stems.len(), |i: int| pattern_key(pattern, stems[i]))
}

/// What group 1 of the pattern takes out of each stem. All keys are absent where
/// the pattern is not valid.
pub fn extract_by(stems: &Vec<String>, pattern: &str) -> (r: Vec<RawKey>)
    ensures
        raw_views(r@) == pattern_keys(pattern@, views(stems@)),
{
    let re = compile(pattern);
    let mut out: Vec<RawKey> = Vec::new();
    let mut i: usize = 0;
    while i < stems.len()
        invariant
            re is Some <==> regex_valid(pattern@),
            re matches Some(e) ==> regex_source(e) == pattern@,
            i <= stems@.len(),
            out@.len() == i,
            forall|j: int|
                0 <= j < i ==> (#[trigger] out@[j])@ == pattern_key(pattern@, stems@[j]@),
        decreases stems@.len() - i,
    {
        let key = match &re {
            Some(e) => find_group(e, stems[i].as_str(), 1),
            None => None,
        };
        out.push(RawKey(key));
        i += 1;
    }
    assert(raw_views(out@) =~= pattern_keys(pattern@, views(stems@)));
    out
}

/// What group 1 of the pattern takes out of each stem. All keys are absent where
/// the pattern is not valid.
pub fn extract_with_regex(stems: &[&str], pattern: &str) -> (r: Vec<RawKey>)
    ensures
        raw_views(r@) == pattern_keys(pattern@, str_views(stems@)),
{
    extract_by(&owned(stems), pattern)
}

} // verus!
