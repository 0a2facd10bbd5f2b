//! Episode keys: what two file names must share to belong together.

use std::cmp::Ordering;

use vstd::prelude::*;

use crate::pattern::{copy_opt, opt_view};
use crate::text::{
    ascii_digit, chars_of, copy_of, lead, lead_len, lemma_lead, lemma_lex_total, lemma_lex_trans,
    lex_lt, str_before, string_of_range, CharClass,
};

verus! {

/// A canonical episode key.
///
/// Variants such as `01`, `E1`, `EP01` and `01v2` are all `Number("1")`. Ranges
/// (`01-02`) and decimals (`01.5`) stay compound inside `Number`. Entries without
/// a number, such as `NCOP`, are `Text("NCOP")`.
#[derive(Debug, PartialEq, Eq, Hash)]
pub enum EpisodeKey {
    /// A numeric key, possibly compound: `1`, `1-2`, `1.5`.
    Number(String),
    /// A key without a number, in upper case.
    Text(String),
}

/// What an [`EpisodeKey`] stands for.
pub enum KeyModel {
    /// A numeric key.
    Number(Seq<char>),
    /// A key without a number.
    Text(Seq<char>),
}

impl View for EpisodeKey {
    type V = KeyModel;

    open spec fn view(&self) -> KeyModel {
        match self {
            EpisodeKey::Number(s) => KeyModel::Number(s@),
            EpisodeKey::Text(s) => KeyModel::Text(s@),
        }
    }
}

/// What a key that may be absent stands for.
pub open spec fn opt_key(k: Option<EpisodeKey>) -> Option<KeyModel> {
    match k {
        Some(k) => Some(k@),
        None => None,
    }
}

/// What each key stands for.
pub open spec fn opt_keys(v: Seq<Option<EpisodeKey>>) -> Seq<Option<KeyModel>> {
    Seq::new(v.len(), |i: int| opt_key(v[i]))
}

/// A raw key: a run taken out of a stem, or `None` where none could be isolated.
#[derive(Debug, PartialEq, Eq)]
pub struct RawKey(pub Option<String>);

impl View for RawKey {
    type V = Option<Seq<char>>;

    open spec fn view(&self) -> Option<Seq<char>> {
        opt_view(self.0)
    }
}

/// What each raw key holds.
pub open spec fn raw_views(v: Seq<RawKey>) -> Seq<Option<Seq<char>>> {
    Seq::new(v.len(), |i: int| v[i]@)
}

impl Clone for RawKey {
    fn clone(&self) -> (r: Self)
        ensures
            r@ == self@,
    {
        RawKey(copy_opt(&self.0))
    }
}

impl Clone for EpisodeKey {
    fn clone(&self) -> (r: Self)
        ensures
            r@ == self@,
    {
        match self {
            EpisodeKey::Number(s) => EpisodeKey::Number(copy_of(s.as_str())),
            EpisodeKey::Text(s) => EpisodeKey::Text(copy_of(s.as_str())),
        }
    }
}

impl KeyModel {
    /// The characters of the key.
    pub open spec fn text(self) -> Seq<char> {
        match self {
            KeyModel::Number(s) => s,
            KeyModel::Text(s) => s,
        }
    }
}

// ---------------------------------------------------------------------------
// Order
// ---------------------------------------------------------------------------
/// Ten to the power `n`.
pub open spec fn pow10(n: nat) -> nat
    decreases n,
{
    if n == 0 {
        1
    } else {
        10 * pow10((n - 1) as nat)
    }
}

/// The number that the decimal digits `d` write.
pub open spec fn number_of(d: Seq<char>) -> nat
    decreases d.len(),
{
    if d.len() == 0 {
        0
    } else {
        ((d[0] as int - '0' as int) as nat) * pow10((d.len() - 1) as nat) + number_of(
            d.drop_first(),
        )
    }
}

/// The integer at the start of `s`.
pub open spec fn leading_int(s: Seq<char>) -> Option<nat> {
    if lead(s, CharClass::Digit) == 0 {
        None
    } else {
        Some(number_of(s.take(lead(s, CharClass::Digit))))
    }
}

/// `a` comes before `b` as a numeric key: by the leading integer, then by the
/// characters.
pub open spec fn numeric_lt(a: Seq<char>, b: Seq<char>) -> bool {
    match (leading_int(a), leading_int(b)) {
        (Some(x), Some(y)) if x != y => x < y,
        _ => lex_lt(a, b),
    }
}

/// `a` comes before `b`: numbers before texts.
pub open spec fn key_lt(a: KeyModel, b: KeyModel) -> bool {
    match (a, b) {
        (KeyModel::Number(x), KeyModel::Number(y)) => numeric_lt(x, y),
        (KeyModel::Number(_), KeyModel::Text(_)) => true,
        (KeyModel::Text(_), KeyModel::Number(_)) => false,
        (KeyModel::Text(x), KeyModel::Text(y)) => lex_lt(x, y),
    }
}

/// `a` comes before `b`, or is `b`.
pub open spec fn key_le(a: KeyModel, b: KeyModel) -> bool {
    !key_lt(b, a)
}

/// `d` holds decimal digits only.
pub open spec fn all_digits(d: Seq<char>) -> bool {
    forall|i: int| 0 <= i < d.len() ==> ascii_digit(#[trigger] d[i])
}

proof fn lemma_number_bound(d: Seq<char>)
    requires
        all_digits(d),
    ensures
        number_of(d) < pow10(d.len()),
    decreases d.len(),
{
    if d.len() > 0 {
        let t = d.drop_first();
        assert forall|i: int| 0 <= i < t.len() implies ascii_digit(#[trigger] t[i]) by {
            assert(ascii_digit(d[i + 1]));
        }
        lemma_number_bound(t);
        assert(ascii_digit(d[0]));
        let c = (d[0] as int - '0' as int) as nat;
        let p = pow10(t.len());
        assert(c <= 9);
        assert(c * p <= 9 * p) by (nonlinear_arith)
            requires
                c <= 9,
        ;
    }
}

/// Digits of one length are ordered as the numbers that they write.
proof fn lemma_number_same_len(a: Seq<char>, b: Seq<char>)
    requires
        all_digits(a),
        all_digits(b),
        a.len() == b.len(),
    ensures
        lex_lt(a, b) <==> number_of(a) < number_of(b),
    decreases a.len(),
{
    if a.len() > 0 {
        let s = a.drop_first();
        let t = b.drop_first();
        assert forall|i: int| 0 <= i < s.len() implies ascii_digit(#[trigger] s[i]) by {
            assert(ascii_digit(a[i + 1]));
        }
        assert forall|i: int| 0 <= i < t.len() implies ascii_digit(#[trigger] t[i]) by {
            assert(ascii_digit(b[i + 1]));
        }
        lemma_number_bound(s);
        lemma_number_bound(t);
        assert(ascii_digit(a[0]));
        assert(ascii_digit(b[0]));
        let x = (a[0] as int - '0' as int) as nat;
        let y = (b[0] as int - '0' as int) as nat;
        let p = pow10(s.len());
        if a[0] == b[0] {
            lemma_number_same_len(s, t);
        } else if x < y {
            assert(x * p + p <= y * p) by (nonlinear_arith)
                requires
                    x + 1 <= y,
            ;
        } else {
            assert(y * p + p <= x * p) by (nonlinear_arith)
                requires
                    y + 1 <= x,
            ;
        }
    }
}

/// A digit run without leading zeros is larger than any shorter one.
proof fn lemma_number_longer(a: Seq<char>, b: Seq<char>)
    requires
        all_digits(a),
        all_digits(b),
        a.len() < b.len(),
        b[0] != '0',
    ensures
        number_of(a) < number_of(b),
{
    lemma_number_bound(a);
    lemma_pow10_mono(a.len(), (b.len() - 1) as nat);
    assert(ascii_digit(b[0]));
    let y = (b[0] as int - '0' as int) as nat;
    let p = pow10((b.len() - 1) as nat);
    assert(p <= y * p) by (nonlinear_arith)
        requires
            y >= 1,
    ;
}

proof fn lemma_pow10_mono(m: nat, n: nat)
    requires
        m <= n,
    ensures
        pow10(m) <= pow10(n),
    decreases n,
{
    if m < n {
        lemma_pow10_mono(m, (n - 1) as nat);
    }
}

/// Leading zeros do not change the number.
proof fn lemma_number_zeros(d: Seq<char>, k: int)
    requires
        0 <= k <= d.len(),
        forall|i: int| 0 <= i < k ==> #[trigger] d[i] == '0',
    ensures
        number_of(d) == number_of(d.skip(k)),
    decreases k,
{
    if k == 0 {
        assert(d.skip(0) =~= d);
    } else {
        let t = d.drop_first();
        assert forall|i: int| 0 <= i < k - 1 implies #[trigger] t[i] == '0' by {
            assert(d[i + 1] == '0');
        }
        lemma_number_zeros(t, k - 1);
        assert(t.skip(k - 1) =~= d.skip(k));
        assert(d[0] == '0');
        assert(0 * pow10((d.len() - 1) as nat) == 0) by (nonlinear_arith);
    }
}

/// Where the key text stands beside the digits: before, among or behind them.
spec fn rank_of(s: Seq<char>) -> int {
    if s.len() == 0 || '0' > s[0] {
        0
    } else if '9' >= s[0] {
        1
    } else {
        2
    }
}

proof fn lemma_rank(a: Seq<char>, b: Seq<char>)
    ensures
        leading_int(a) is Some <==> rank_of(a) == 1,
        rank_of(a) < rank_of(b) ==> numeric_lt(a, b) && !numeric_lt(b, a),
        rank_of(a) == rank_of(b) && rank_of(a) != 1 ==> numeric_lt(a, b) == lex_lt(a, b),
{
    lemma_lead(a, CharClass::Digit);
    lemma_lead(b, CharClass::Digit);
}

/// The order of numeric keys: of two different keys exactly one comes before the
/// other, and the order is transitive.
proof fn lemma_numeric_order(a: Seq<char>, b: Seq<char>, c: Seq<char>)
    ensures
        !(numeric_lt(a, b) && numeric_lt(b, a)),
        a == b <==> (!numeric_lt(a, b) && !numeric_lt(b, a)),
        numeric_lt(a, b) && numeric_lt(b, c) ==> numeric_lt(a, c),
{
    lemma_lex_total(a, b);
    lemma_rank(a, b);
    lemma_rank(b, a);
    lemma_rank(b, c);
    lemma_rank(c, b);
    lemma_rank(a, c);
    lemma_rank(c, a);
    if lex_lt(a, b) && lex_lt(b, c) {
        lemma_lex_trans(a, b, c);
    }
}

/// Keys are totally ordered: no key comes before itself, of two different keys
/// exactly one comes before the other, and the order is transitive.
pub proof fn law_key_order(a: KeyModel, b: KeyModel, c: KeyModel)
    ensures
        !key_lt(a, a),
        !(key_lt(a, b) && key_lt(b, a)),
        a == b <==> (!key_lt(a, b) && !key_lt(b, a)),
        key_lt(a, b) && key_lt(b, c) ==> key_lt(a, c),
        a is Number && b is Text ==> key_lt(a, b),
{
    lemma_numeric_order(a.text(), b.text(), c.text());
    lemma_numeric_order(a.text(), a.text(), a.text());
    lemma_lex_total(a.text(), b.text());
    lemma_lex_total(a.text(), a.text());
    if lex_lt(a.text(), b.text()) && lex_lt(b.text(), c.text()) {
        lemma_lex_trans(a.text(), b.text(), c.text());
    }
}

/// Bare numbers come in numeric order, whatever their length: a number whose
/// integer is smaller comes first.
pub proof fn law_numbers_by_value(a: Seq<char>, b: Seq<char>)
    requires
        leading_int(a) is Some,
        leading_int(b) is Some,
        leading_int(a)->0 < leading_int(b)->0,
    ensures
        key_lt(KeyModel::Number(a), KeyModel::Number(b)),
{
}

/// Whether the digit run `a` writes a smaller integer than `b`.
fn digits_before(a: &[char], b: &[char]) -> (r: bool)
    requires
        all_digits(a@),
        all_digits(b@),
    ensures
        r == (number_of(a@) < number_of(b@)),
{
    let za = lead_len(a, CharClass::Zero);
    let zb = lead_len(b, CharClass::Zero);
    let ghost x = a@.skip(za as int);
    let ghost y = b@.skip(zb as int);
    proof {
        lemma_lead(a@, CharClass::Zero);
        lemma_lead(b@, CharClass::Zero);
        assert forall|i: int| 0 <= i < za implies #[trigger] a@[i] == '0' by {
            assert(CharClass::Zero.has(a@[i]));
        }
        assert forall|i: int| 0 <= i < zb implies #[trigger] b@[i] == '0' by {
            assert(CharClass::Zero.has(b@[i]));
        }
        lemma_number_zeros(a@, za as int);
        lemma_number_zeros(b@, zb as int);
        assert forall|i: int| 0 <= i < x.len() implies ascii_digit(#[trigger] x[i]) by {
            assert(ascii_digit(a@[i + za]));
        }
        assert forall|i: int| 0 <= i < y.len() implies ascii_digit(#[trigger] y[i]) by {
            assert(ascii_digit(b@[i + zb]));
        }
    }
    let na: usize = a.len() - za;
    let nb: usize = b.len() - zb;
    if na < nb {
        proof {
            lemma_number_longer(x, y);
        }
        true
    } else if nb < na {
        proof {
            lemma_number_longer(y, x);
        }
        false
    } else {
        let s = string_of_range(a, za, a.len());
        let t = string_of_range(b, zb, b.len());
        proof {
            assert(s@ =~= x);
            assert(t@ =~= y);
            lemma_number_same_len(x, y);
        }
        str_before(s.as_str(), t.as_str())
    }
}

/// Whether the numeric key `a` comes before `b`: by the leading integer, then by
/// the characters.
pub fn numeric_before(a: &str, b: &str) -> (r: bool)
    ensures
        r == numeric_lt(a@, b@),
{
    let x = chars_of(a);
    let y = chars_of(b);
    let m = lead_len(x.as_slice(), CharClass::Digit);
    let n = lead_len(y.as_slice(), CharClass::Digit);
    proof {
        lemma_lead(a@, CharClass::Digit);
        lemma_lead(b@, CharClass::Digit);
    }
    if m > 0 && n > 0 {
        let dx = chars_of(string_of_range(x.as_slice(), 0, m).as_str());
        let dy = chars_of(string_of_range(y.as_slice(), 0, n).as_str());
        proof {
            assert(dx@ =~= a@.take(m as int));
            assert(dy@ =~= b@.take(n as int));
            assert forall|i: int| 0 <= i < dx@.len() implies ascii_digit(#[trigger] dx@[i]) by {
                assert(CharClass::Digit.has(a@[i]));
            }
            assert forall|i: int| 0 <= i < dy@.len() implies ascii_digit(#[trigger] dy@[i]) by {
                assert(CharClass::Digit.has(b@[i]));
            }
        }
        if digits_before(dx.as_slice(), dy.as_slice()) {
            return true;
        }
        if digits_before(dy.as_slice(), dx.as_slice()) {
            return false;
        }
    }
    str_before(a, b)
}

/// Compares two numeric keys: by the leading integer, then by the characters.
pub fn numeric_compare(a: &str, b: &str) -> (r: Ordering)
    ensures
        r == (if numeric_lt(a@, b@) {
            Ordering::Less
        } else if numeric_lt(b@, a@) {
            Ordering::Greater
        } else {
            Ordering::Equal
        }),
{
    if numeric_before(a, b) {
        Ordering::Less
    } else if numeric_before(b, a) {
        Ordering::Greater
    } else {
        Ordering::Equal
    }
}

/// Compares two strings by their characters.
fn text_compare(a: &str, b: &str) -> (r: Ordering)
    ensures
        r == (if lex_lt(a@, b@) {
            Ordering::Less
        } else if lex_lt(b@, a@) {
            Ordering::Greater
        } else {
            Ordering::Equal
        }),
{
    if str_before(a, b) {
        Ordering::Less
    } else if str_before(b, a) {
        Ordering::Greater
    } else {
        Ordering::Equal
    }
}

impl EpisodeKey {
    /// The text of the key.
    pub fn as_str(&self) -> (r: &str)
        ensures
            r@ == self@.text(),
    {
        match self {
            EpisodeKey::Number(s) => s.as_str(),
            EpisodeKey::Text(s) => s.as_str(),
        }
    }

    /// Compares two keys: numbers by their leading integer and then by their
    /// characters, texts by their characters, numbers before texts.
    pub fn cmp(&self, other: &EpisodeKey) -> (r: Ordering)
        ensures
            r == (if key_lt(self@, other@) {
                Ordering::Less
            } else if key_lt(other@, self@) {
                Ordering::Greater
            } else {
                Ordering::Equal
            }),
    {
        match (self, other) {
            (EpisodeKey::Number(a), EpisodeKey::Number(b)) => numeric_compare(
                a.as_str(),
                b.as_str(),
            ),
            (EpisodeKey::Number(_), EpisodeKey::Text(_)) => Ordering::Less,
            (EpisodeKey::Text(_), EpisodeKey::Number(_)) => Ordering::Greater,
            (EpisodeKey::Text(a), EpisodeKey::Text(b)) => text_compare(a.as_str(), b.as_str()),
        }
    }

    /// Whether `self` comes before `other`.
    pub fn before(&self, other: &EpisodeKey) -> (r: bool)
        ensures
            r == key_lt(self@, other@),
    {
        match (self, other) {
            (EpisodeKey::Number(a), EpisodeKey::Number(b)) => numeric_before(
                a.as_str(),
                b.as_str(),
            ),
            (EpisodeKey::Number(_), EpisodeKey::Text(_)) => true,
            (EpisodeKey::Text(_), EpisodeKey::Number(_)) => false,
            (EpisodeKey::Text(a), EpisodeKey::Text(b)) => str_before(a.as_str(), b.as_str()),
        }
    }

    /// Whether the two keys are the same.
    pub fn same(&self, other: &EpisodeKey) -> (r: bool)
        ensures
            r == (self@ == other@),
    {
        match (self, other) {
            (EpisodeKey::Number(a), EpisodeKey::Number(b)) => *a == *b,
            (EpisodeKey::Text(a), EpisodeKey::Text(b)) => *a == *b,
            _ => false,
        }
    }
}

} // verus!
