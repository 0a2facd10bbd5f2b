//! What the keys of stems are: of numbers, tags and words, and how keys are ordered.

use vstd::prelude::*;
use vstd::string::*;

use crate::key::{all_digits, key_lt, leading_int, number_of, pow10, KeyModel};
use crate::normalize::{
    canonical, canonical_key, chinese_numerals, first_body, first_prefix, is_joint, key_from, key_of,
    lemma_component_is, marked_bodies, special_tags,
};
use crate::pattern::{
    key_patterns, regex_group, BARE_PATTERN, EPISODE_PATTERN, NUMERIC_PATTERN, ORDINAL_PATTERN,
    SEASON_PATTERN,
};
use crate::text::{
    ascii_digit, begins_with, law_trim, lemma_lead_is, lemma_tail, lex_lt, lower, number_in,
    repeated, tail, trim_both, upper, CharClass,
};

verus! {

// ---------------------------------------------------------------------------
// Numbers
// ---------------------------------------------------------------------------
/// The components of a number are made canonical each by itself, and what joins them stays.
pub proof fn law_canonical_join(h: Seq<char>, c: char, t: Seq<char>)
    requires
        forall|i: int| 0 <= i < h.len() ==> #[trigger] h[i] != '-' && h[i] != '.',
        c == '-' || c == '.',
    ensures
        canonical(h.push(c) + t) == canonical(h).push(c) + canonical(t),
{
    let s = h.push(c) + t;
    let n = h.len() as int;
    assert forall|i: int| 0 <= i < n implies !is_joint(#[trigger] s[i]) by {
        assert(s[i] == h[i]);
    }
    assert(s[n] == c);
    lemma_component_is(s, n);
    assert forall|i: int| 0 <= i < n implies !is_joint(#[trigger] h[i]) by {}
    lemma_component_is(h, n);
    assert(s.take(n) =~= h);
    assert(s.skip(n + 1) =~= t);
}

/// A component loses the zeros at its start and nothing else. One of zeros alone is `0`.
pub proof fn law_canonical_zeros(zeros: nat, rest: Seq<char>)
    requires
        forall|i: int| 0 <= i < rest.len() ==> #[trigger] rest[i] != '-' && rest[i] != '.',
        rest.len() > 0 ==> rest[0] != '0',
    ensures
        canonical(repeated('0', zeros as int) + rest) == if rest.len() > 0 {
            rest
        } else if zeros > 0 {
            seq!['0']
        } else {
            Seq::empty()
        },
{
    let s = repeated('0', zeros as int) + rest;
    assert forall|i: int| 0 <= i < s.len() implies !is_joint(#[trigger] s[i]) by {
        if i >= zeros {
            assert(s[i] == rest[i - zeros]);
        }
    }
    lemma_component_is(s, s.len() as int);
    assert forall|i: int| 0 <= i < zeros implies CharClass::Zero.has(#[trigger] s[i]) by {}
    if rest.len() > 0 {
        assert(s[zeros as int] == rest[0]);
    }
    lemma_lead_is(s, CharClass::Zero, zeros as int);
    assert(s.skip(zeros as int) =~= rest);
}

proof fn lemma_number_push(d: Seq<char>, c: char)
    requires
        all_digits(d),
        ascii_digit(c),
    ensures
        number_of(d.push(c)) == number_of(d) * 10 + (c as int - '0' as int),
    decreases d.len(),
{
    let s = d.push(c);
    if d.len() == 0 {
        assert(s.drop_first() =~= Seq::empty());
        assert(number_of(s.drop_first()) == 0);
        assert(number_of(s) == ((s[0] as int - '0' as int) as nat) * pow10(0) + number_of(
            s.drop_first(),
        ));
        let x = (c as int - '0' as int) as nat;
        let p = pow10(0);
        assert(x * p == x) by (nonlinear_arith)
            requires
                p == 1,
        ;
    } else {
        let t = d.drop_first();
        assert forall|i: int| 0 <= i < t.len() implies ascii_digit(#[trigger] t[i]) by {
            assert(ascii_digit(d[i + 1]));
        }
        lemma_number_push(t, c);
        assert(s.drop_first() =~= t.push(c));
        let x = (d[0] as int - '0' as int) as nat;
        assert(ascii_digit(d[0]));
        let p = pow10(t.len());
        assert(pow10((s.len() - 1) as nat) == 10 * p);
        assert(x * (10 * p) == (x * p) * 10) by (nonlinear_arith);
        assert(number_of(s) == x * (10 * p) + number_of(t.push(c)));
        assert(number_of(d) == x * p + number_of(t));
        let y = x * p;
        assert(number_of(s) == y * 10 + number_of(t) * 10 + (c as int - '0' as int));
    }
}

proof fn lemma_number_same(d: Seq<char>)
    requires
        all_digits(d),
    ensures
        number_of(d) == number_in(d),
    decreases d.len(),
{
    if d.len() > 0 {
        let t = d.drop_last();
        assert forall|i: int| 0 <= i < t.len() implies ascii_digit(#[trigger] t[i]) by {
            assert(t[i] == d[i]);
        }
        assert(ascii_digit(d[d.len() - 1]));
        lemma_number_same(t);
        lemma_number_push(t, d.last());
        assert(t.push(d.last()) =~= d);
    }
}

/// The integer at the start of a number is what its first digits write, all of them.
pub proof fn law_leading_int(d: Seq<char>, rest: Seq<char>)
    requires
        d.len() > 0,
        forall|i: int| 0 <= i < d.len() ==> '0' <= #[trigger] d[i] <= '9',
        rest.len() > 0 ==> !('0' <= rest[0] <= '9'),
    ensures
        leading_int(d + rest) matches Some(n) && n == number_in(d),
{
    let s = d + rest;
    let n = d.len() as int;
    assert forall|i: int| 0 <= i < n implies CharClass::Digit.has(#[trigger] s[i]) by {
        assert(s[i] == d[i]);
    }
    if rest.len() > 0 {
        assert(s[n] == rest[0]);
    }
    lemma_lead_is(s, CharClass::Digit, n);
    assert(s.take(n) =~= d);
    lemma_number_same(d);
}

/// Numbers are in the order of the integers at their start. Where these are equal they are
/// in the order of their characters.
pub proof fn law_number_order(c: Seq<char>, p: Seq<char>, d: Seq<char>, q: Seq<char>)
    requires
        c.len() > 0,
        d.len() > 0,
        forall|i: int| 0 <= i < c.len() ==> '0' <= #[trigger] c[i] <= '9',
        forall|i: int| 0 <= i < d.len() ==> '0' <= #[trigger] d[i] <= '9',
        p.len() > 0 ==> !('0' <= p[0] <= '9'),
        q.len() > 0 ==> !('0' <= q[0] <= '9'),
    ensures
        key_lt(KeyModel::Number(c + p), KeyModel::Number(d + q)) <==> (number_in(c) < number_in(d)
            || (number_in(c) == number_in(d) && lex_lt(c + p, d + q))),
{
    law_leading_int(c, p);
    law_leading_int(d, q);
}

/// Numbers come before texts. Texts, and numbers that do not begin with a digit, are in the
/// order of their characters.
pub proof fn law_text_order(a: Seq<char>, b: Seq<char>)
    ensures
        key_lt(KeyModel::Number(a), KeyModel::Text(b)),
        !key_lt(KeyModel::Text(a), KeyModel::Number(b)),
        key_lt(KeyModel::Text(a), KeyModel::Text(b)) <==> lex_lt(a, b),
        (a.len() == 0 || !('0' <= a[0] <= '9') || b.len() == 0 || !('0' <= b[0] <= '9')) ==> (
        key_lt(KeyModel::Number(a), KeyModel::Number(b)) <==> lex_lt(a, b)),
{
}

// ---------------------------------------------------------------------------
// Keys
// ---------------------------------------------------------------------------
proof fn lemma_prefix_is(s: Seq<char>, words: Seq<Seq<char>>, i: int)
    requires
        0 <= i <= words.len(),
        i < words.len() ==> begins_with(s, words[i]),
        forall|j: int| 0 <= j < i ==> !begins_with(s, #[trigger] words[j]),
    ensures
        first_prefix(s, words) == if i < words.len() {
            Some(words[i])
        } else {
            None
        },
    decreases words.len(),
{
    if i > 0 {
        let t = words.drop_first();
        assert(!begins_with(s, words[0]));
        assert forall|j: int| 0 <= j < i - 1 implies !begins_with(s, #[trigger] t[j]) by {
            assert(t[j] == words[j + 1]);
        }
        lemma_prefix_is(s, t, i - 1);
    }
}

proof fn lemma_body_is(b: Seq<Option<Seq<char>>>, i: int)
    requires
        0 <= i <= b.len(),
        i < b.len() ==> b[i] is Some && b[i]->0.len() > 0,
        forall|j: int| 0 <= j < i ==> (#[trigger] b[j] matches Some(m) ==> m.len() == 0),
    ensures
        first_body(b) == if i < b.len() {
            b[i]
        } else {
            None
        },
    decreases b.len(),
{
    if i > 0 {
        let t = b.drop_first();
        assert(b[0] matches Some(m) ==> m.len() == 0);
        assert forall|j: int| 0 <= j < i - 1 implies (#[trigger] t[j] matches Some(m) ==> m.len()
            == 0) by {
            assert(t[j] == b[j + 1]);
        }
        lemma_body_is(t, i - 1);
    }
}

/// A raw key that begins with a special tag, in any case, has that tag as its key, in upper
/// case, whatever numbers it holds.
pub proof fn law_key_of_tag(s: Seq<char>, bodies: Seq<Option<Seq<char>>>, i: int)
    requires
        s.len() > 0,
        0 <= i < special_tags().len(),
        begins_with(lower(s), special_tags()[i]),
        forall|j: int| 0 <= j < i ==> !begins_with(lower(s), #[trigger] special_tags()[j]),
    ensures
        key_from(s, bodies) == Some(KeyModel::Text(upper(special_tags()[i]))),
{
    lemma_prefix_is(lower(s), special_tags(), i);
}

/// No special tag stands at the start of `s`, in any case.
pub open spec fn untagged(s: Seq<char>) -> bool {
    forall|j: int|
        0 <= j < special_tags().len() ==> !begins_with(lower(s), #[trigger] special_tags()[j])
}

/// Neither a special tag nor a Chinese numeral stands at the start of `s`.
pub open spec fn unnumbered(s: Seq<char>) -> bool {
    &&& untagged(s)
    &&& forall|j: int|
        0 <= j < chinese_numerals().len() ==> !begins_with(
            lower(s),
            #[trigger] chinese_numerals()[j],
        )
}

/// A raw key without a tag that begins with a Chinese numeral has that numeral as its key.
pub proof fn law_key_of_numeral(s: Seq<char>, bodies: Seq<Option<Seq<char>>>, i: int)
    requires
        s.len() > 0,
        untagged(s),
        0 <= i < chinese_numerals().len(),
        begins_with(lower(s), chinese_numerals()[i]),
        forall|j: int| 0 <= j < i ==> !begins_with(lower(s), #[trigger] chinese_numerals()[j]),
    ensures
        key_from(s, bodies) == Some(KeyModel::Text(chinese_numerals()[i])),
{
    lemma_prefix_is(lower(s), special_tags(), special_tags().len() as int);
    lemma_prefix_is(lower(s), chinese_numerals(), i);
}

/// Otherwise the key is the first number that stands behind a marker, in canonical form.
pub proof fn law_key_of_number(s: Seq<char>, bodies: Seq<Option<Seq<char>>>, i: int)
    requires
        s.len() > 0,
        unnumbered(s),
        0 <= i < bodies.len(),
        bodies[i] is Some && bodies[i]->0.len() > 0,
        forall|j: int| 0 <= j < i ==> (#[trigger] bodies[j] matches Some(m) ==> m.len() == 0),
    ensures
        key_from(s, bodies) == Some(KeyModel::Number(canonical(bodies[i]->0))),
{
    lemma_prefix_is(lower(s), special_tags(), special_tags().len() as int);
    lemma_prefix_is(lower(s), chinese_numerals(), chinese_numerals().len() as int);
    lemma_body_is(bodies, i);
}

/// Where there is no number either, the key is the first run of letters and numbers, in
/// upper case, and there is none where there is no such run.
pub proof fn law_key_of_word(s: Seq<char>, bodies: Seq<Option<Seq<char>>>, a: int, b: int)
    requires
        s.len() > 0,
        unnumbered(s),
        forall|j: int|
            0 <= j < bodies.len() ==> (#[trigger] bodies[j] matches Some(m) ==> m.len() == 0),
        0 <= a <= b <= s.len(),
        forall|i: int| 0 <= i < a ==> !CharClass::Alphanumeric.has(#[trigger] s[i]),
        forall|i: int| a <= i < b ==> CharClass::Alphanumeric.has(#[trigger] s[i]),
        a == b ==> b == s.len(),
        b < s.len() ==> !CharClass::Alphanumeric.has(s[b]),
    ensures
        key_from(s, bodies) == if a < b {
            Some(KeyModel::Text(upper(s.subrange(a, b))))
        } else {
            None
        },
{
    lemma_prefix_is(lower(s), special_tags(), special_tags().len() as int);
    lemma_prefix_is(lower(s), chinese_numerals(), chinese_numerals().len() as int);
    lemma_body_is(bodies, bodies.len() as int);
    assert forall|i: int| 0 <= i < a implies CharClass::Other.has(#[trigger] s[i]) by {}
    lemma_lead_is(s, CharClass::Other, a);
    let t = s.skip(a);
    assert forall|i: int| 0 <= i < b - a implies CharClass::Alphanumeric.has(#[trigger] t[i]) by {
        assert(t[i] == s[i + a]);
    }
    lemma_lead_is(t, CharClass::Alphanumeric, b - a);
    assert(t.take(b - a) =~= s.subrange(a, b));
}

/// A raw key without characters has no key.
pub proof fn law_no_key_of_nothing(bodies: Seq<Option<Seq<char>>>)
    ensures
        key_from(Seq::empty(), bodies) is None,
        key_of(None) is None,
{
}

/// White space around a raw key does not count.
pub proof fn law_key_trimmed(before: Seq<char>, s: Seq<char>, behind: Seq<char>)
    requires
        forall|i: int| 0 <= i < before.len() ==> CharClass::Space.has(#[trigger] before[i]),
        forall|i: int| 0 <= i < behind.len() ==> CharClass::Space.has(#[trigger] behind[i]),
        s.len() > 0 ==> !CharClass::Space.has(s[0]) && !CharClass::Space.has(s.last()),
    ensures
        key_of(Some(before + s + behind)) == key_from(s, marked_bodies(lower(s))),
{
    let k = CharClass::Space;
    let r = before + s + behind;
    if s.len() > 0 {
        let n = before.len() as int;
        assert forall|i: int| 0 <= i < n implies k.has(#[trigger] r[i]) by {
            assert(r[i] == before[i]);
        }
        assert(r[n] == s[0]);
        lemma_lead_is(r, k, n);
        let t = r.skip(n);
        assert(t =~= s + behind);
        lemma_tail(t, k);
        let m = tail(t, k);
        if m > behind.len() {
            assert(k.has(t[s.len() - 1]));
            assert(t[s.len() - 1] == s.last());
        }
        if m < behind.len() {
            let j = t.len() - m - 1;
            assert(t[j] == behind[j - s.len()]);
        }
        assert(trim_both(r, k) =~= s);
    } else {
        law_trim(r, k);
        let (a, b) = choose|a: int, b: int|
            0 <= a <= b <= r.len() && trim_both(r, k) == #[trigger] r.subrange(a, b) && forall|
                i: int,
            |
                (0 <= i < a || b <= i < r.len()) ==> k.has(#[trigger] r[i]);
        if a < b {
            assert(trim_both(r, k)[0] == r[a]);
            if a < before.len() {
                assert(r[a] == before[a]);
            } else {
                assert(r[a] == behind[a - before.len()]);
            }
        }
        assert(trim_both(r, k) =~= s);
    }
}

/// The markers that are tried, in this order: `第` and `话` or `集`, a season, `e` or `ep`,
/// none. What stands behind one is a number only without anything but a revision behind it.
pub proof fn law_markers(low: Seq<char>)
    ensures
        marked_bodies(low).len() == 4,
        marked_bodies(low)[0] == (match regex_group(ORDINAL_PATTERN@, low, 1) {
            Some(m) => regex_group(NUMERIC_PATTERN@, lower(m), 1),
            None => None,
        }),
        marked_bodies(low)[1] == (match regex_group(SEASON_PATTERN@, low, 1) {
            Some(m) => regex_group(NUMERIC_PATTERN@, lower(m), 1),
            None => None,
        }),
        marked_bodies(low)[2] == (match regex_group(EPISODE_PATTERN@, low, 1) {
            Some(m) => regex_group(NUMERIC_PATTERN@, lower(m), 1),
            None => None,
        }),
        marked_bodies(low)[3] == (match regex_group(BARE_PATTERN@, low, 1) {
            Some(m) => regex_group(NUMERIC_PATTERN@, lower(m), 1),
            None => None,
        }),
{
    let p = key_patterns();
    assert(p[0] == ORDINAL_PATTERN@ && p[1] == SEASON_PATTERN@);
    assert(p[2] == EPISODE_PATTERN@ && p[3] == BARE_PATTERN@);
}

/// The special tags.
pub proof fn law_special_tags(t: Seq<char>)
    ensures
        special_tags().contains(t) <==> (t == "ncop"@ || t == "nced"@ || t == "sp"@ || t == "op"@
            || t == "ed"@ || t == "ova"@ || t == "pv"@ || t == "cm"@ || t == "menu"@),
{
    let w = special_tags();
    assert(w[0] == "ncop"@ && w[1] == "nced"@ && w[2] == "sp"@ && w[3] == "op"@ && w[4] == "ed"@);
    assert(w[5] == "ova"@ && w[6] == "pv"@ && w[7] == "cm"@ && w[8] == "menu"@);
}

/// The Chinese numerals are those from one to ten, plain and financial.
pub proof fn law_chinese_numerals(t: Seq<char>)
    ensures
        chinese_numerals().contains(t) <==> (t == "一"@ || t == "二"@ || t == "三"@ || t == "四"@
            || t == "五"@ || t == "六"@ || t == "七"@ || t == "八"@ || t == "九"@ || t == "十"@
            || t == "壹"@ || t == "贰"@ || t == "叁"@ || t == "肆"@ || t == "伍"@ || t == "陆"@
            || t == "柒"@ || t == "捌"@ || t == "玖"@ || t == "拾"@),
{
    let w = chinese_numerals();
    assert(w[0] == "一"@ && w[1] == "二"@ && w[2] == "三"@ && w[3] == "四"@ && w[4] == "五"@);
    assert(w[5] == "六"@ && w[6] == "七"@ && w[7] == "八"@ && w[8] == "九"@ && w[9] == "十"@);
    assert(w[10] == "壹"@ && w[11] == "贰"@ && w[12] == "叁"@ && w[13] == "肆"@ && w[14] == "伍"@);
    assert(w[15] == "陆"@ && w[16] == "柒"@ && w[17] == "捌"@ && w[18] == "玖"@ && w[19] == "拾"@);
}

/// The canonical form of a raw key is that of the number in it, in lower case, where there is
/// one with any characters.
pub proof fn law_canonical_key(raw: Seq<char>)
    ensures
        canonical_key(raw) == match regex_group(NUMERIC_PATTERN@, lower(raw), 1) {
            Some(b) => if b.len() > 0 {
                Some(canonical(b))
            } else {
                None
            },
            None => None,
        },
{
}

} // verus!
