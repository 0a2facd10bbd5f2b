//! From a raw key to an [`EpisodeKey`].

use vstd::prelude::*;
use vstd::string::*;

use crate::key::{opt_key, EpisodeKey, KeyModel, RawKey};
use crate::pattern::{
    ascii_number, compound, key_patterns, marked_number, numeral, opt_str, opt_view, regex_group,
    Patterns, BARE_PATTERN, EPISODE_PATTERN, NUMERIC_PATTERN, ORDINAL_PATTERN, SEASON_PATTERN,
};
use crate::text::{
    ascii_digit, begins_with, chars_of, copy_of, lead, lead_len, lemma_lead, lower, lower_char,
    starts_with, string_of_range, to_lower, to_upper, trim_both, trim_start, trimmed, trimmed_start,
    upper, CharClass,
};
use crate::unicode::whitespace;

verus! {

// ---------------------------------------------------------------------------
// Word lists
// ---------------------------------------------------------------------------
/// What each string slice holds.
pub open spec fn str_views(v: Seq<&str>) -> Seq<Seq<char>> {
    Seq::new(v.len(), |i: int| v[i]@)
}

/// Tags of files that are not episodes, in the order in which they are tried.
pub open spec fn special_tags() -> Seq<Seq<char>> {
    seq!["ncop"@, "nced"@, "sp"@, "op"@, "ed"@, "ova"@, "pv"@, "cm"@, "menu"@]
}

/// The Chinese numerals from one to ten, plain and financial.
pub open spec fn chinese_numerals() -> Seq<Seq<char>> {
    seq![
        "一"@,
        "二"@,
        "三"@,
        "四"@,
        "五"@,
        "六"@,
        "七"@,
        "八"@,
        "九"@,
        "十"@,
        "壹"@,
        "贰"@,
        "叁"@,
        "肆"@,
        "伍"@,
        "陆"@,
        "柒"@,
        "捌"@,
        "玖"@,
        "拾"@,
    ]
}

/// The tags of files that are not episodes.
pub fn special_tag_list() -> (r: Vec<&'static str>)
    ensures
        str_views(r@) == special_tags(),
{
    let r: Vec<&'static str> = vec!["ncop", "nced", "sp", "op", "ed", "ova", "pv", "cm", "menu"];
    assert(str_views(r@) =~= special_tags());
    r
}

/// The Chinese numerals.
pub fn chinese_numeral_list() -> (r: Vec<&'static str>)
    ensures
        str_views(r@) == chinese_numerals(),
{
    let r: Vec<&'static str> = vec![
        "一", "二", "三", "四", "五", "六", "七", "八", "九", "十", "壹", "贰", "叁", "肆", "伍",
        "陆", "柒", "捌", "玖", "拾",
    ];
    assert(str_views(r@) =~= chinese_numerals());
    r
}

/// The first word of `words` that `s` begins with.
pub open spec fn first_prefix(s: Seq<char>, words: Seq<Seq<char>>) -> Option<Seq<char>>
    decreases words.len(),
{
    if words.len() == 0 {
        None
    } else if begins_with(s, words[0]) {
        Some(words[0])
    } else {
        first_prefix(s, words.drop_first())
    }
}

/// The first word of `words` that `s` begins with.
fn find_prefix<'a>(s: &str, words: &Vec<&'a str>) -> (r: Option<&'a str>)
    ensures
        match r {
            Some(w) => first_prefix(s@, str_views(words@)) == Some(w@),
            None => first_prefix(s@, str_views(words@)) is None,
        },
{
    let ghost all = str_views(words@);
    let mut i: usize = 0;
    assert(all.skip(0) =~= all);
    while i < words.len()
        invariant
            all == str_views(words@),
            i <= words@.len(),
            first_prefix(s@, all) == first_prefix(s@, all.skip(i as int)),
        decreases words@.len() - i,
    {
        assert(all.skip(i as int).drop_first() =~= all.skip(i + 1));
        if starts_with(s, words[i]) {
            return Some(words[i]);
        }
        i += 1;
    }
    None
}

/// Whether `word` is one of `words`.
pub fn is_listed(word: &str, words: &Vec<&'static str>) -> (r: bool)
    ensures
        r == str_views(words@).contains(word@),
{
    let w = copy_of(word);
    let mut i: usize = 0;
    while i < words.len()
        invariant
            w@ == word@,
            i <= words@.len(),
            forall|j: int| 0 <= j < i ==> str_views(words@)[j] != word@,
        decreases words@.len() - i,
    {
        if copy_of(words[i]) == w {
            assert(str_views(words@)[i as int] == word@);
            return true;
        }
        i += 1;
    }
    false
}

// ---------------------------------------------------------------------------
// Numbers
// ---------------------------------------------------------------------------
/// `-` and `.` join the components of a compound number.
pub open spec fn is_joint(c: char) -> bool {
    c == '-' || c == '.'
}

/// How many characters stand before the first joint of `s`.
pub open spec fn component_len(s: Seq<char>) -> int
    decreases s.len(),
{
    if s.len() == 0 || is_joint(s[0]) {
        0
    } else {
        1 + component_len(s.drop_first())
    }
}

/// `s` without leading zeros; a component of zeros only is `0`.
pub open spec fn strip_zeros(s: Seq<char>) -> Seq<char> {
    let t = trim_start(s, CharClass::Zero);
    if t.len() == 0 && s.len() > 0 {
        seq!['0']
    } else {
        t
    }
}

/// `s` with the leading zeros of each component stripped.
pub open spec fn canonical(s: Seq<char>) -> Seq<char>
    decreases s.len(),
{
    let n = component_len(s);
    if n < 0 || n >= s.len() {
        strip_zeros(s)
    } else {
        strip_zeros(s.take(n)).push(s[n]) + canonical(s.skip(n + 1))
    }
}

proof fn lemma_component(s: Seq<char>)
    ensures
        0 <= component_len(s) <= s.len(),
        forall|i: int| 0 <= i < component_len(s) ==> !is_joint(#[trigger] s[i]),
        component_len(s) < s.len() ==> is_joint(s[component_len(s)]),
    decreases s.len(),
{
    if s.len() > 0 && !is_joint(s[0]) {
        let t = s.drop_first();
        lemma_component(t);
        assert forall|i: int| 0 <= i < component_len(s) implies !is_joint(#[trigger] s[i]) by {
            if i > 0 {
                assert(s[i] == t[i - 1]);
            }
        }
    }
}

pub proof fn lemma_component_is(s: Seq<char>, n: int)
    requires
        0 <= n <= s.len(),
        forall|i: int| 0 <= i < n ==> !is_joint(#[trigger] s[i]),
        n < s.len() ==> is_joint(s[n]),
    ensures
        component_len(s) == n,
{
    lemma_component(s);
    if component_len(s) < n {
        assert(!is_joint(s[component_len(s)]));
    }
}

proof fn lemma_strip_zeros(s: Seq<char>)
    ensures
        strip_zeros(strip_zeros(s)) == strip_zeros(s),
        (forall|i: int| 0 <= i < s.len() ==> !is_joint(#[trigger] s[i])) ==> (forall|i: int|
            0 <= i < strip_zeros(s).len() ==> !is_joint(#[trigger] strip_zeros(s)[i])),
        strip_zeros(s).len() > 1 ==> strip_zeros(s)[0] != '0',
{
    lemma_lead(s, CharClass::Zero);
    let t = trim_start(s, CharClass::Zero);
    let r = strip_zeros(s);
    lemma_lead(r, CharClass::Zero);
    if t.len() == 0 && s.len() > 0 {
        if lead(r, CharClass::Zero) == 0 {
            assert(CharClass::Zero.has(r[0]));
        }
        assert(trim_start(r, CharClass::Zero).len() == 0);
    } else {
        if t.len() > 0 {
            assert(t[0] == s[lead(s, CharClass::Zero)]);
            assert(!CharClass::Zero.has(t[0]));
            if lead(r, CharClass::Zero) > 0 {
                assert(CharClass::Zero.has(r[0]));
            }
        }
        assert(t.skip(0) =~= t);
        assert forall|i: int|
            0 <= i < t.len() && (forall|j: int|
                0 <= j < s.len() ==> !is_joint(#[trigger] s[j])) implies !is_joint(
            #[trigger] t[i],
        ) by {
            assert(t[i] == s[i + lead(s, CharClass::Zero)]);
        }
    }
}

/// A canonical number is its own canonical form.
pub proof fn law_canonical_idempotent(s: Seq<char>)
    ensures
        canonical(canonical(s)) == canonical(s),
    decreases s.len(),
{
    let n = component_len(s);
    lemma_component(s);
    if n >= s.len() {
        lemma_strip_zeros(s);
        let r = strip_zeros(s);
        lemma_component_is(r, r.len() as int);
    } else {
        let h = s.take(n);
        let rest = canonical(s.skip(n + 1));
        law_canonical_idempotent(s.skip(n + 1));
        lemma_strip_zeros(h);
        assert forall|i: int| 0 <= i < h.len() implies !is_joint(#[trigger] h[i]) by {
            assert(h[i] == s[i]);
        }
        let z = strip_zeros(h);
        let r = z.push(s[n]) + rest;
        assert forall|i: int| 0 <= i < z.len() implies !is_joint(#[trigger] r[i]) by {
            assert(r[i] == z[i]);
        }
        lemma_component_is(r, z.len() as int);
        assert(r.take(z.len() as int) =~= z);
        assert(r.skip(z.len() as int + 1) =~= rest);
    }
}

/// Leading zeros in front of a component do not change a number: `01` is `1`.
pub proof fn law_leading_zero_ignored(s: Seq<char>)
    requires
        s.len() > 0,
        !is_joint(s[0]),
    ensures
        canonical(seq!['0'] + s) == canonical(s),
{
    let z = seq!['0'] + s;
    let n = component_len(s);
    lemma_component(s);
    assert forall|i: int| 0 <= i < n + 1 implies !is_joint(#[trigger] z[i]) by {
        if i > 0 {
            assert(z[i] == s[i - 1]);
        }
    }
    if n < s.len() {
        assert(z[n + 1] == s[n]);
    }
    lemma_component_is(z, n + 1);
    let h = s.take(n);
    let g = z.take(n + 1);
    assert(g.drop_first() =~= h);
    assert(g[0] == '0');
    lemma_lead(h, CharClass::Zero);
    assert(trim_start(g, CharClass::Zero) =~= trim_start(h, CharClass::Zero));
    assert(strip_zeros(g) == strip_zeros(h));
    if n < s.len() {
        assert(z.skip(n + 2) =~= s.skip(n + 1));
    } else {
        assert(h =~= s);
        assert(g =~= z);
    }
}

/// Where a component of `s` begins.
pub open spec fn begins_component(s: Seq<char>, i: int) -> bool {
    i == 0 || is_joint(s[i - 1])
}

/// Every component of `s` has a character, and none begins with `0` but `0` itself.
pub open spec fn reduced(s: Seq<char>) -> bool {
    &&& s.len() > 0
    &&& !is_joint(s.last())
    &&& forall|i: int|
        0 <= i < s.len() && #[trigger] begins_component(s, i) ==> !is_joint(s[i]) && (s[i] == '0'
            ==> i + 1 == s.len() || is_joint(s[i + 1]))
}

/// The canonical form of a number is a number with the same components, each without its
/// leading zeros: it has no character that the number has not.
pub proof fn law_canonical_reduced(s: Seq<char>, digit: spec_fn(char) -> bool)
    requires
        compound(s, digit),
    ensures
        compound(canonical(s), digit),
        reduced(canonical(s)),
{
    lemma_canonical_reduced(s, |c: char| is_joint(c) || digit(c));
}

proof fn lemma_canonical_reduced(s: Seq<char>, p: spec_fn(char) -> bool)
    requires
        s.len() > 0,
        !is_joint(s[0]),
        !is_joint(s.last()),
        forall|i: int| 0 <= i < s.len() ==> p(#[trigger] s[i]),
        forall|i: int| 0 <= i < s.len() - 1 && is_joint(#[trigger] s[i]) ==> !is_joint(s[i + 1]),
    ensures
        canonical(s).len() > 0,
        !is_joint(canonical(s)[0]),
        !is_joint(canonical(s).last()),
        forall|i: int| 0 <= i < canonical(s).len() ==> p(#[trigger] canonical(s)[i]),
        forall|i: int|
            0 <= i < canonical(s).len() - 1 && is_joint(#[trigger] canonical(s)[i]) ==> !is_joint(
                canonical(s)[i + 1],
            ),
        reduced(canonical(s)),
    decreases s.len(),
{
    let n = component_len(s);
    lemma_component(s);
    let h = s.take(n);
    assert forall|i: int| 0 <= i < h.len() implies !is_joint(#[trigger] h[i]) && p(h[i]) by {
        assert(h[i] == s[i]);
    }
    assert(h.len() > 0);
    let z = strip_zeros(h);
    lemma_strip_zeros(h);
    lemma_lead(h, CharClass::Zero);
    assert forall|i: int| 0 <= i < z.len() implies p(#[trigger] z[i]) by {
        let t = trim_start(h, CharClass::Zero);
        if t.len() == 0 {
            assert(CharClass::Zero.has(h[0]));
        } else {
            assert(t[i] == h[i + lead(h, CharClass::Zero)]);
        }
    }
    let r = canonical(s);
    if n >= s.len() {
        assert(h =~= s);
        assert(r == z);
        assert forall|i: int| 0 <= i < r.len() && #[trigger] begins_component(r, i) implies i
            == 0 by {
            if i > 0 {
                assert(!is_joint(r[i - 1]));
            }
        }
    } else {
        let t = s.skip(n + 1);
        assert(is_joint(s[n]));
        assert(n < s.len() - 1);
        assert(t[0] == s[n + 1]);
        assert(t.last() == s.last());
        assert forall|i: int| 0 <= i < t.len() implies p(#[trigger] t[i]) by {
            assert(t[i] == s[i + n + 1]);
        }
        assert forall|i: int|
            0 <= i < t.len() - 1 && is_joint(#[trigger] t[i]) implies !is_joint(t[i + 1]) by {
            assert(t[i] == s[i + n + 1]);
            assert(t[i + 1] == s[i + n + 2]);
        }
        lemma_canonical_reduced(t, p);
        let c = canonical(t);
        let k = z.len() as int;
        assert(r == z.push(s[n]) + c);
        assert(r[k] == s[n]);
        assert forall|i: int| 0 <= i < r.len() implies (if i < k {
            #[trigger] r[i] == z[i]
        } else if i == k {
            r[i] == s[n]
        } else {
            r[i] == c[i - k - 1]
        }) by {}
        assert(r.last() == c.last());
        assert forall|i: int| 0 <= i < r.len() implies p(#[trigger] r[i]) by {
            if i < k {
                assert(p(z[i]));
            } else if i > k {
                assert(p(c[i - k - 1]));
            }
        }
        assert forall|i: int|
            0 <= i < r.len() - 1 && is_joint(#[trigger] r[i]) implies !is_joint(r[i + 1]) by {
            if i < k {
                assert(!is_joint(z[i]));
            } else if i == k {
                assert(r[i + 1] == c[0]);
            } else {
                assert(is_joint(c[i - k - 1]));
                assert(r[i + 1] == c[i - k]);
            }
        }
        assert forall|i: int|
            0 <= i < r.len() && #[trigger] begins_component(r, i) implies !is_joint(r[i]) && (r[i]
            == '0' ==> i + 1 == r.len() || is_joint(r[i + 1])) by {
            if i == 0 {
                assert(r[0] == z[0]);
                if z.len() > 1 {
                    assert(z[0] != '0');
                } else {
                    assert(r[1] == s[n]);
                }
            } else if i <= k {
                assert(r[i - 1] == z[i - 1]);
                assert(!is_joint(z[i - 1]));
            } else {
                let j = i - k - 1;
                if j > 0 {
                    assert(r[i - 1] == c[j - 1]);
                }
                assert(begins_component(c, j));
                if j + 1 < c.len() {
                    assert(r[i + 1] == c[j + 1]);
                }
            }
        }
    }
}

proof fn lemma_no_tag(n: Seq<char>)
    requires
        n.len() > 0,
        numeral(n[0]),
    ensures
        first_prefix(n, special_tags()) is None,
        first_prefix(n, chinese_numerals()) is None,
{
    reveal_strlit("ncop");
    reveal_strlit("nced");
    reveal_strlit("sp");
    reveal_strlit("op");
    reveal_strlit("ed");
    reveal_strlit("ova");
    reveal_strlit("pv");
    reveal_strlit("cm");
    reveal_strlit("menu");
    reveal_strlit("一");
    reveal_strlit("二");
    reveal_strlit("三");
    reveal_strlit("四");
    reveal_strlit("五");
    reveal_strlit("六");
    reveal_strlit("七");
    reveal_strlit("八");
    reveal_strlit("九");
    reveal_strlit("十");
    reveal_strlit("壹");
    reveal_strlit("贰");
    reveal_strlit("叁");
    reveal_strlit("肆");
    reveal_strlit("伍");
    reveal_strlit("陆");
    reveal_strlit("柒");
    reveal_strlit("捌");
    reveal_strlit("玖");
    reveal_strlit("拾");
    lemma_no_prefix(n, special_tags());
    lemma_no_prefix(n, chinese_numerals());
}

proof fn lemma_no_prefix(s: Seq<char>, words: Seq<Seq<char>>)
    requires
        s.len() > 0,
        forall|i: int|
            0 <= i < words.len() ==> (#[trigger] words[i]).len() > 0 && words[i][0] != s[0],
    ensures
        first_prefix(s, words) is None,
    decreases words.len(),
{
    if words.len() > 0 {
        let w = words[0];
        if begins_with(s, w) {
            assert(s.subrange(0, w.len() as int)[0] == s[0]);
        }
        let t = words.drop_first();
        assert forall|i: int| 0 <= i < t.len() implies (#[trigger] t[i]).len() > 0 && t[i][0]
            != s[0] by {
            assert(t[i] == words[i + 1]);
        }
        lemma_no_prefix(s, t);
    }
}

/// A component without its leading zeros.
pub fn strip_leading_zeros(s: &str) -> (r: String)
    ensures
        r@ == strip_zeros(s@),
{
    let t = trimmed_start(s, CharClass::Zero);
    if t.as_str().is_empty() && !s.is_empty() {
        let mut zero = String::new();
        zero.push('0');
        assert(zero@ =~= seq!['0']);
        zero
    } else {
        t
    }
}

/// The canonical form of the number `body`.
pub fn canonical_number(body: &str) -> (r: String)
    ensures
        r@ == canonical(body@),
{
    let c = chars_of(body);
    let mut out = String::new();
    let mut current = String::new();
    let mut i: usize = 0;
    assert(current@ + c@.skip(0) =~= c@);
    assert(out@ + canonical(c@) =~= canonical(c@));
    while i < c.len()
        invariant
            c@ == body@,
            i <= c@.len(),
            forall|j: int| 0 <= j < current@.len() ==> !is_joint(#[trigger] current@[j]),
            canonical(body@) == out@ + canonical(current@ + c@.skip(i as int)),
        decreases c@.len() - i,
    {
        let ch = c[i];
        let ghost rest = c@.skip(i as int);
        let ghost all = current@ + rest;
        assert(rest[0] == ch);
        assert(rest.drop_first() =~= c@.skip(i + 1));
        if ch == '-' || ch == '.' {
            let ghost before = out@;
            let z = strip_leading_zeros(current.as_str());
            proof {
                let n = current@.len() as int;
                assert forall|j: int| 0 <= j < n implies !is_joint(#[trigger] all[j]) by {
                    assert(all[j] == current@[j]);
                }
                assert(all[n] == ch);
                lemma_component_is(all, n);
                assert(all.take(n) =~= current@);
                assert(all.skip(n + 1) =~= c@.skip(i + 1));
            }
            out.append(z.as_str());
            out.push(ch);
            current = String::new();
            assert(current@ + c@.skip(i + 1) =~= c@.skip(i + 1));
            assert(before + canonical(all) =~= out@ + canonical(c@.skip(i + 1)));
        } else {
            current.push(ch);
            assert(current@ + c@.skip(i + 1) =~= all);
        }
        i += 1;
    }
    proof {
        assert(current@ + c@.skip(i as int) =~= current@);
        lemma_component_is(current@, current@.len() as int);
    }
    let z = strip_leading_zeros(current.as_str());
    out.append(z.as_str());
    out
}

/// The number in `raw`, without a revision behind it.
pub open spec fn number_body(raw: Seq<char>) -> Option<Seq<char>> {
    regex_group(NUMERIC_PATTERN@, lower(raw), 1)
}

/// The canonical form of the number in `raw`, without a revision behind it.
pub open spec fn canonical_key(raw: Seq<char>) -> Option<Seq<char>> {
    match number_body(raw) {
        Some(body) if body.len() > 0 => Some(canonical(body)),
        _ => None,
    }
}

/// The canonical form of the number in `raw`: leading zeros stripped in each
/// component, a revision such as `v2` dropped.
pub fn canonicalize_numeric(patterns: &Patterns, raw: &str) -> (r: Option<String>)
    requires
        patterns.wf(),
    ensures
        opt_view(r) == canonical_key(raw@),
{
    let low = to_lower(raw);
    match patterns.leading_number(low.as_str()) {
        Some(body) => {
            if body.as_str().is_empty() {
                None
            } else {
                Some(canonical_number(body.as_str()))
            }
        },
        None => None,
    }
}

// ---------------------------------------------------------------------------
// Keys
// ---------------------------------------------------------------------------
/// The number behind each episode marker of `low`, in the order of the patterns.
pub open spec fn marked_bodies(low: Seq<char>) -> Seq<Option<Seq<char>>> {
    Seq::new(
        4,
        |i: int|
            match regex_group(key_patterns()[i], low, 1) {
                Some(m) => number_body(m),
                None => None,
            },
    )
}

/// The first number of `bodies` that has any characters.
pub open spec fn first_body(bodies: Seq<Option<Seq<char>>>) -> Option<Seq<char>>
    decreases bodies.len(),
{
    if bodies.len() == 0 {
        None
    } else if bodies[0] is Some && bodies[0]->0.len() > 0 {
        bodies[0]
    } else {
        first_body(bodies.drop_first())
    }
}

/// The first run of letters and numbers in `s`.
pub open spec fn first_word(s: Seq<char>) -> Seq<char> {
    let t = trim_start(s, CharClass::Other);
    t.take(lead(t, CharClass::Alphanumeric))
}

/// The key of `s`, where `bodies` are the numbers that stand behind its markers:
/// a special tag or a Chinese numeral at the start, else the first number, else
/// the first word.
pub open spec fn key_from(s: Seq<char>, bodies: Seq<Option<Seq<char>>>) -> Option<KeyModel> {
    if s.len() == 0 {
        None
    } else if let Some(tag) = first_prefix(lower(s), special_tags()) {
        Some(KeyModel::Text(upper(tag)))
    } else if let Some(numeral) = first_prefix(lower(s), chinese_numerals()) {
        Some(KeyModel::Text(numeral))
    } else if let Some(body) = first_body(bodies) {
        Some(KeyModel::Number(canonical(body)))
    } else if first_word(s).len() == 0 {
        None
    } else {
        Some(KeyModel::Text(upper(first_word(s))))
    }
}

/// The key of the raw key `raw`.
pub open spec fn key_of(raw: Option<Seq<char>>) -> Option<KeyModel> {
    match raw {
        None => None,
        Some(r) => key_from(
            trim_both(r, CharClass::Space),
            marked_bodies(lower(trim_both(r, CharClass::Space))),
        ),
    }
}

/// What each optional string holds.
pub open spec fn opt_views(v: Seq<Option<String>>) -> Seq<Option<Seq<char>>> {
    Seq::new(v.len(), |i: int| opt_view(v[i]))
}

/// The key of `s`, where `bodies` are the numbers that stand behind its markers.
pub fn key_from_bodies(s: &str, bodies: &Vec<Option<String>>) -> (r: Option<EpisodeKey>)
    ensures
        opt_key(r) == key_from(s@, opt_views(bodies@)),
{
    if s.is_empty() {
        return None;
    }
    let low = to_lower(s);
    match find_prefix(low.as_str(), &special_tag_list()) {
        Some(tag) => {
            return Some(EpisodeKey::Text(to_upper(tag)));
        },
        None => {},
    }
    match find_prefix(low.as_str(), &chinese_numeral_list()) {
        Some(numeral) => {
            return Some(EpisodeKey::Text(copy_of(numeral)));
        },
        None => {},
    }
    let ghost all = opt_views(bodies@);
    let mut i: usize = 0;
    assert(all.skip(0) =~= all);
    while i < bodies.len()
        invariant
            all == opt_views(bodies@),
            i <= bodies@.len(),
            first_body(all) == first_body(all.skip(i as int)),
            s@.len() > 0,
            first_prefix(lower(s@), special_tags()) is None,
            first_prefix(lower(s@), chinese_numerals()) is None,
        decreases bodies@.len() - i,
    {
        assert(all.skip(i as int).drop_first() =~= all.skip(i + 1));
        assert(all.skip(i as int)[0] == opt_view(bodies@[i as int]));
        if let Some(body) = &bodies[i] {
            if !body.as_str().is_empty() {
                return Some(EpisodeKey::Number(canonical_number(body.as_str())));
            }
        }
        i += 1;
    }
    let t = chars_of(trimmed_start(s, CharClass::Other).as_str());
    let n = lead_len(t.as_slice(), CharClass::Alphanumeric);
    let word = string_of_range(t.as_slice(), 0, n);
    assert(word@ =~= first_word(s@));
    if word.as_str().is_empty() {
        None
    } else {
        Some(EpisodeKey::Text(to_upper(word.as_str())))
    }
}

/// `n` is in the form that numbers have as keys: each component has a digit and no leading
/// zero, and the key of `n` is `n`.
pub open spec fn settled(n: Seq<char>) -> bool {
    &&& compound(n, |c: char| numeral(c))
    &&& reduced(n)
    &&& key_of(Some(n)) == Some(KeyModel::Number(n))
}

/// The key of a number in ASCII digits, such as `01` or `01-02`, is its canonical form.
pub open spec fn numbers_kept(raw: Option<Seq<char>>, key: Option<KeyModel>) -> bool {
    raw matches Some(s) ==> ascii_number(s) ==> key == Some(KeyModel::Number(canonical(s)))
}

/// Leading zeros do not change a key: `a`, the key of a number in ASCII digits, is `b`, the
/// key of the number with a zero in front.
pub proof fn law_zero_keeps_key(s: Seq<char>, a: Option<KeyModel>, b: Option<KeyModel>)
    requires
        ascii_number(s),
        numbers_kept(Some(s), a),
        numbers_kept(Some(seq!['0'] + s), b),
    ensures
        a == b,
        a == Some(KeyModel::Number(canonical(s))),
{
    let z = seq!['0'] + s;
    let digit = |c: char| ascii_digit(c);
    assert forall|i: int| 0 <= i < z.len() implies is_joint(#[trigger] z[i]) || digit(z[i]) by {
        if i > 0 {
            assert(z[i] == s[i - 1]);
        }
    }
    assert forall|i: int|
        0 <= i < z.len() - 1 && is_joint(#[trigger] z[i]) implies !is_joint(z[i + 1]) by {
        assert(z[i] == s[i - 1]);
        assert(z[i + 1] == s[i]);
    }
    assert(z.last() == s.last());
    assert(ascii_number(z));
    law_leading_zero_ignored(s);
}

proof fn lemma_plain_lower(s: Seq<char>)
    requires
        compound(s, |c: char| numeral(c)),
    ensures
        lower(s) == s,
{
    assert forall|i: int| 0 <= i < s.len() implies lower_char(#[trigger] s[i]) == s[i] by {}
    assert(lower(s) =~= s);
}

/// What a pattern for episode numbers finds is its own number, and its canonical form is
/// settled.
proof fn lemma_marked_number(m: Seq<char>)
    requires
        marked_number(m),
    ensures
        number_body(m) == Some(m),
        settled(canonical(m)),
{
    let n = canonical(m);
    let digit = |c: char| numeral(c);
    lemma_plain_lower(m);
    law_canonical_reduced(m, digit);
    law_canonical_idempotent(m);
    lemma_plain_lower(n);
    lemma_canonical_reduced(m, |c: char| !whitespace(c));
    let k = CharClass::Space;
    assert(!k.has(n[0]));
    assert(!k.has(n[n.len() - 1]));
    assert(trim_start(n, k) =~= n);
    assert(trim_both(n, k) =~= n);
    lemma_no_tag(n);
    let b = marked_bodies(n);
    assert(key_patterns()[0] == ORDINAL_PATTERN@);
    assert(key_patterns()[1] == SEASON_PATTERN@);
    assert(key_patterns()[2] == EPISODE_PATTERN@);
    assert(key_patterns()[3] == BARE_PATTERN@);
    assert(b[0] is None && b[1] is None && b[2] is None && b[3] == Some(n));
    lemma_last_body(b, n);
}

proof fn lemma_last_body(b: Seq<Option<Seq<char>>>, n: Seq<char>)
    requires
        b.len() == 4,
        b[0] is None && b[1] is None && b[2] is None && b[3] == Some(n),
        n.len() > 0,
    ensures
        first_body(b) == Some(n),
{
    let c = b.drop_first();
    let d = c.drop_first();
    let e = d.drop_first();
    assert(c[0] == b[1] && d[0] == b[2] && e[0] == b[3]);
    assert(first_body(e) == Some(n));
    assert(first_body(d) == Some(n));
    assert(first_body(c) == Some(n));
}

proof fn lemma_first_body(b: Seq<Option<Seq<char>>>)
    ensures
        first_body(b) matches Some(m) ==> exists|i: int| 0 <= i < b.len() && #[trigger] b[i]
            == Some(m),
    decreases b.len(),
{
    if b.len() > 0 && first_body(b) is Some && !(b[0] is Some && b[0]->0.len() > 0) {
        let t = b.drop_first();
        lemma_first_body(t);
        let i = choose|i: int| 0 <= i < t.len() && #[trigger] t[i] == first_body(t);
        assert(b[i + 1] == first_body(t));
    }
}

/// The key of a raw key, with patterns that are compiled already. A number that is a key
/// is its own key, and leading zeros do not change the key of a number.
pub fn normalize_with(patterns: &Patterns, raw: &Option<String>) -> (r: Option<EpisodeKey>)
    requires
        patterns.wf(),
    ensures
        opt_key(r) == key_of(opt_view(*raw)),
        opt_key(r) matches Some(KeyModel::Number(n)) ==> settled(n),
        numbers_kept(opt_view(*raw), opt_key(r)),
{
    let text = match raw {
        Some(t) => trimmed(t.as_str(), CharClass::Space),
        None => {
            return None;
        },
    };
    let low = to_lower(text.as_str());
    let marked = patterns.marked_numbers(low.as_str());
    let mut bodies: Vec<Option<String>> = Vec::new();
    let mut i: usize = 0;
    while i < marked.len()
        invariant
            patterns.wf(),
            i <= marked@.len(),
            marked@.len() == 4,
            bodies@.len() == i,
            forall|j: int|
                0 <= j < 4 ==> opt_view(#[trigger] marked@[j]) == regex_group(
                    key_patterns()[j],
                    low@,
                    1,
                ) && (marked@[j] matches Some(m) ==> marked_number(m@)),
            forall|j: int|
                0 <= j < i ==> opt_view(#[trigger] bodies@[j]) == marked_bodies(low@)[j],
            forall|j: int|
                0 <= j < i ==> (#[trigger] marked_bodies(low@)[j] matches Some(b)
                    ==> marked_number(b) && opt_view(marked@[j]) == Some(b)),
        decreases 4 - i,
    {
        proof {
            if let Some(m) = opt_view(marked@[i as int]) {
                lemma_marked_number(m);
            }
        }
        assert(opt_view(marked@[i as int]) == regex_group(key_patterns()[i as int], low@, 1));
        let body = match &marked[i] {
            Some(m) => patterns.leading_number(to_lower(m.as_str()).as_str()),
            None => None,
        };
        bodies.push(body);
        i += 1;
    }
    assert(opt_views(bodies@) =~= marked_bodies(low@));
    proof {
        let b = marked_bodies(low@);
        lemma_first_body(b);
        if let Some(m) = first_body(b) {
            let k = choose|k: int| 0 <= k < b.len() && #[trigger] b[k] == Some(m);
            assert(marked_number(m));
            lemma_marked_number(m);
        }
        if let Some(s) = opt_view(*raw) {
            if ascii_number(s) {
                assert(ascii_digit(s[0]) && ascii_digit(s[s.len() - 1]));
                lemma_ascii_compound(s);
                lemma_plain_lower(s);
                lemma_no_tag(s);
                assert(opt_view(marked@[3]) == Some(s));
                lemma_marked_number(s);
                assert(b[0] is None && b[1] is None && b[2] is None && b[3] == Some(s));
                lemma_last_body(b, s);
            }
        }
    }
    key_from_bodies(text.as_str(), &bodies)
}

proof fn lemma_ascii_compound(s: Seq<char>)
    requires
        ascii_number(s),
    ensures
        compound(s, |c: char| numeral(c)),
{
    let digit = |c: char| ascii_digit(c);
    assert forall|i: int| 0 <= i < s.len() implies is_joint(#[trigger] s[i]) || numeral(s[i]) by {
        assert(is_joint(s[i]) || digit(s[i]));
    }
}

/// The key of a raw key; `None` where it holds nothing that could be one. A number that is
/// a key is its own key, and leading zeros do not change the key of a number.
pub fn normalize_key(raw: Option<&str>) -> (r: Option<EpisodeKey>)
    ensures
        opt_key(r) == key_of(opt_str(raw)),
        opt_key(r) matches Some(KeyModel::Number(n)) ==> settled(n),
        numbers_kept(opt_str(raw), opt_key(r)),
{
    match raw {
        Some(s) => normalize_with(&Patterns::new(), &Some(copy_of(s))),
        None => None,
    }
}

/// The keys of raw keys.
pub fn normalize_all(patterns: &Patterns, raws: &Vec<RawKey>) -> (r: Vec<Option<EpisodeKey>>)
    requires
        patterns.wf(),
    ensures
        r@.len() == raws@.len(),
        forall|i: int| 0 <= i < r@.len() ==> opt_key(#[trigger] r@[i]) == key_of(raws@[i]@),
{
    let mut out: Vec<Option<EpisodeKey>> = Vec::new();
    let mut i: usize = 0;
    while i < raws.len()
        invariant
            patterns.wf(),
            i <= raws@.len(),
            out@.len() == i,
            forall|j: int| 0 <= j < i ==> opt_key(#[trigger] out@[j]) == key_of(raws@[j]@),
        decreases raws@.len() - i,
    {
        out.push(normalize_with(patterns, &raws[i].0));
        i += 1;
    }
    out
}

} // verus!
