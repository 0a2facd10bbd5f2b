//! Strings as sequences of characters: case, search, order, trimming, decimals.

use vstd::prelude::*;
use vstd::string::*;

use crate::unicode::{alphanumeric, whitespace};

verus! {

/// `String::push` appends one character.
pub assume_specification[ String::push ](s: &mut String, c: char)
    ensures
        final(s)@ == old(s)@.push(c),
;

// ---------------------------------------------------------------------------
// Characters
// ---------------------------------------------------------------------------
/// An ASCII decimal digit.
pub open spec fn ascii_digit(c: char) -> bool {
    '0' <= c <= '9'
}

/// An ASCII letter.
pub open spec fn ascii_letter(c: char) -> bool {
    ('a' <= c <= 'z') || ('A' <= c <= 'Z')
}

/// Any ASCII character.
pub open spec fn ascii_char(c: char) -> bool {
    c as u32 <= 127
}

/// Whether `c` is an ASCII decimal digit.
pub fn is_digit(c: char) -> (r: bool)
    ensures
        r == ascii_digit(c),
{
    '0' <= c && c <= '9'
}

/// Whether `c` is an ASCII letter.
pub fn is_letter(c: char) -> (r: bool)
    ensures
        r == ascii_letter(c),
{
    ('a' <= c && c <= 'z') || ('A' <= c && c <= 'Z')
}

/// Whether `c` is an ASCII character.
pub fn is_ascii_char(c: char) -> (r: bool)
    ensures
        r == ascii_char(c),
{
    c as u32 <= 127
}

/// `c` with an ASCII capital made small.
pub open spec fn lower_char(c: char) -> char {
    if 'A' <= c <= 'Z' {
        ((c as u8) + 32) as char
    } else {
        c
    }
}

/// `c` with an ASCII small letter made capital.
pub open spec fn upper_char(c: char) -> char {
    if 'a' <= c <= 'z' {
        ((c as u8) - 32) as char
    } else {
        c
    }
}

/// `s` with every ASCII capital made small.
pub open spec fn lower(s: Seq<char>) -> Seq<char> {
    Seq::new(s.len(), |i: int| lower_char(s[i]))
}

/// `s` with every ASCII small letter made capital.
pub open spec fn upper(s: Seq<char>) -> Seq<char> {
    Seq::new(s.len(), |i: int| upper_char(s[i]))
}

/// Case is changed for the ASCII letters alone, by the distance between `A` and `a`, each
/// character by itself.
pub proof fn law_case(s: Seq<char>, i: int)
    requires
        0 <= i < s.len(),
    ensures
        lower(s).len() == s.len() && upper(s).len() == s.len(),
        'A' <= s[i] <= 'Z' ==> lower(s)[i] as u32 == s[i] as u32 + 32 && upper(s)[i] == s[i],
        'a' <= s[i] <= 'z' ==> upper(s)[i] as u32 + 32 == s[i] as u32 && lower(s)[i] == s[i],
        !('A' <= s[i] <= 'Z') && !('a' <= s[i] <= 'z') ==> lower(s)[i] == s[i] && upper(s)[i]
            == s[i],
{
}

/// The characters of `s`, in order.
pub fn chars_of(s: &str) -> (r: Vec<char>)
    ensures
        r@ == s@,
{
    let mut out: Vec<char> = Vec::new();
    for c in it: s.chars()
        invariant
            out@ == s@.take(it.index()),
            it.seq() == s@,
    {
        out.push(c);
    }
    out
}

/// The string made of `chars`.
pub fn string_of(chars: &[char]) -> (r: String)
    ensures
        r@ == chars@,
{
    let mut out = String::new();
    let mut i: usize = 0;
    while i < chars.len()
        invariant
            i <= chars@.len(),
            out@ == chars@.take(i as int),
        decreases chars@.len() - i,
    {
        out.push(chars[i]);
        i += 1;
        assert(chars@.take(i as int) =~= chars@.take(i - 1).push(chars@[i - 1]));
    }
    assert(chars@.take(i as int) =~= chars@);
    out
}

/// The string made of the characters of `chars` from `from` up to `to`.
pub fn string_of_range(chars: &[char], from: usize, to: usize) -> (r: String)
    requires
        from <= to <= chars@.len(),
    ensures
        r@ == chars@.subrange(from as int, to as int),
{
    let mut out = String::new();
    let mut i: usize = from;
    while i < to
        invariant
            from <= i <= to <= chars@.len(),
            out@ == chars@.subrange(from as int, i as int),
        decreases to - i,
    {
        out.push(chars[i]);
        i += 1;
        assert(chars@.subrange(from as int, i as int) =~= chars@.subrange(from as int, i - 1).push(
            chars@[i - 1],
        ));
    }
    out
}

/// A second string with the characters of `s`.
pub fn copy_of(s: &str) -> (r: String)
    ensures
        r@ == s@,
{
    String::from_str(s)
}

/// Whether the two strings hold the same characters.
pub fn same_str(a: &str, b: &str) -> (r: bool)
    ensures
        r == (a@ == b@),
{
    String::from_str(a) == String::from_str(b)
}

/// `s` in ASCII lower case.
pub fn to_lower(s: &str) -> (r: String)
    ensures
        r@ == lower(s@),
{
    let mut out = String::new();
    for c in it: s.chars()
        invariant
            out@ == lower(s@).take(it.index()),
            it.seq() == s@,
    {
        if 'A' <= c && c <= 'Z' {
            out.push((c as u8 + 32) as char);
        } else {
            out.push(c);
        }
        assert(lower(s@).take(it.index() + 1) =~= lower(s@).take(it.index()).push(lower_char(c)));
    }
    assert(lower(s@).take(s@.len() as int) =~= lower(s@));
    out
}

/// `s` in ASCII upper case.
pub fn to_upper(s: &str) -> (r: String)
    ensures
        r@ == upper(s@),
{
    let mut out = String::new();
    for c in it: s.chars()
        invariant
            out@ == upper(s@).take(it.index()),
            it.seq() == s@,
    {
        if 'a' <= c && c <= 'z' {
            out.push((c as u8 - 32) as char);
        } else {
            out.push(c);
        }
        assert(upper(s@).take(it.index() + 1) =~= upper(s@).take(it.index()).push(upper_char(c)));
    }
    assert(upper(s@).take(s@.len() as int) =~= upper(s@));
    out
}

// ---------------------------------------------------------------------------
// Search
// ---------------------------------------------------------------------------
/// `t` stands in `s` at position `i`.
pub open spec fn occurs_at(s: Seq<char>, t: Seq<char>, i: int) -> bool {
    0 <= i && i + t.len() <= s.len() && s.subrange(i, i + t.len()) == t
}

/// `s` begins with `t`.
pub open spec fn begins_with(s: Seq<char>, t: Seq<char>) -> bool {
    occurs_at(s, t, 0)
}

/// `s` ends with `t`.
pub open spec fn finishes_with(s: Seq<char>, t: Seq<char>) -> bool {
    occurs_at(s, t, s.len() - t.len())
}

/// `t` stands somewhere in `s`.
pub open spec fn has_part(s: Seq<char>, t: Seq<char>) -> bool {
    exists|i: int| occurs_at(s, t, i)
}

/// Whether `t` stands in `s` at position `i`.
pub fn is_at(s: &[char], t: &[char], i: usize) -> (r: bool)
    ensures
        r == occurs_at(s@, t@, i as int),
{
    if i > s.len() || t.len() > s.len() - i {
        return false;
    }
    let mut k: usize = 0;
    while k < t.len()
        invariant
            k <= t@.len(),
            i + t@.len() <= s@.len() <= usize::MAX,
            forall|j: int| 0 <= j < k ==> s@[i + j] == t@[j],
        decreases t@.len() - k,
    {
        if s[i + k] != t[k] {
            assert(s@.subrange(i as int, i + t@.len())[k as int] != t@[k as int]);
            return false;
        }
        k += 1;
    }
    assert(s@.subrange(i as int, i + t@.len()) =~= t@);
    true
}

/// Whether `s` begins with `t`.
pub fn starts_with(s: &str, t: &str) -> (r: bool)
    ensures
        r == begins_with(s@, t@),
{
    is_at(chars_of(s).as_slice(), chars_of(t).as_slice(), 0)
}

/// Whether `s` ends with `t`.
pub fn ends_with(s: &str, t: &str) -> (r: bool)
    ensures
        r == finishes_with(s@, t@),
{
    let a = chars_of(s);
    let b = chars_of(t);
    if b.len() > a.len() {
        false
    } else {
        is_at(a.as_slice(), b.as_slice(), a.len() - b.len())
    }
}

/// Whether `t` stands somewhere in `s`.
pub fn contains(s: &str, t: &str) -> (r: bool)
    ensures
        r == has_part(s@, t@),
{
    let a = chars_of(s);
    let b = chars_of(t);
    let mut i: usize = 0;
    while i <= a.len()
        invariant
            a@ == s@,
            b@ == t@,
            i <= a@.len() + 1,
            forall|j: int| 0 <= j < i ==> !occurs_at(s@, t@, j),
        decreases a@.len() + 1 - i,
    {
        if is_at(a.as_slice(), b.as_slice(), i) {
            return true;
        }
        if i == a.len() {
            return false;
        }
        i += 1;
    }
    false
}

/// A text stands in another where all of its characters do, one behind the other.
pub proof fn law_occurs(s: Seq<char>, t: Seq<char>, i: int)
    ensures
        occurs_at(s, t, i) <==> 0 <= i && i + t.len() <= s.len() && forall|k: int|
            0 <= k < t.len() ==> #[trigger] t[k] == s[i + k],
        begins_with(s, t) <==> t.len() <= s.len() && forall|k: int|
            0 <= k < t.len() ==> #[trigger] t[k] == s[k],
        finishes_with(s, t) <==> t.len() <= s.len() && forall|k: int|
            0 <= k < t.len() ==> #[trigger] t[k] == s[s.len() - t.len() + k],
        occurs_at(s, t, i) ==> has_part(s, t),
{
    lemma_occurs(s, t, i);
    lemma_occurs(s, t, 0);
    lemma_occurs(s, t, s.len() - t.len());
}

proof fn lemma_occurs(s: Seq<char>, t: Seq<char>, i: int)
    ensures
        occurs_at(s, t, i) <==> 0 <= i && i + t.len() <= s.len() && forall|k: int|
            0 <= k < t.len() ==> #[trigger] t[k] == s[i + k],
{
    if occurs_at(s, t, i) {
        assert forall|k: int| 0 <= k < t.len() implies #[trigger] t[k] == s[i + k] by {
            assert(s.subrange(i, i + t.len())[k] == t[k]);
        }
    }
    if 0 <= i && i + t.len() <= s.len() && forall|k: int|
        0 <= k < t.len() ==> #[trigger] t[k] == s[i + k] {
        assert(s.subrange(i, i + t.len()) =~= t);
    }
}

/// The position of the last `c` in `s`.
pub open spec fn last_index(s: Seq<char>, c: char) -> Option<int>
    decreases s.len(),
{
    if s.len() == 0 {
        None
    } else if s.last() == c {
        Some(s.len() - 1)
    } else {
        last_index(s.drop_last(), c)
    }
}

/// What `last_index` finds is the last place of `c`.
pub proof fn lemma_last_index(s: Seq<char>, c: char)
    ensures
        match last_index(s, c) {
            Some(i) => 0 <= i < s.len() && s[i] == c && forall|j: int| i < j < s.len() ==> s[j] != c,
            None => forall|j: int| 0 <= j < s.len() ==> s[j] != c,
        },
    decreases s.len(),
{
    if s.len() > 0 && s.last() != c {
        lemma_last_index(s.drop_last(), c);
        assert forall|j: int| 0 <= j < s.len() - 1 implies s[j] == s.drop_last()[j] by {}
    }
}

/// The position of the last `c` in `s`.
pub fn find_last(s: &[char], c: char) -> (r: Option<usize>)
    ensures
        match r {
            Some(i) => last_index(s@, c) == Some(i as int) && i < s@.len(),
            None => last_index(s@, c) is None,
        },
{
    let mut i: usize = s.len();
    assert(s@.take(i as int) =~= s@);
    while i > 0
        invariant
            i <= s@.len(),
            last_index(s@, c) == last_index(s@.take(i as int), c),
        decreases i,
    {
        assert(s@.take(i as int).drop_last() =~= s@.take(i - 1));
        if s[i - 1] == c {
            return Some(i - 1);
        }
        i -= 1;
    }
    None
}

// ---------------------------------------------------------------------------
// Order
// ---------------------------------------------------------------------------
/// `a` comes before `b` in the order of their characters.
pub open spec fn lex_lt(a: Seq<char>, b: Seq<char>) -> bool
    decreases a.len(),
{
    if b.len() == 0 {
        false
    } else if a.len() == 0 {
        true
    } else if a[0] != b[0] {
        a[0] < b[0]
    } else {
        lex_lt(a.drop_first(), b.drop_first())
    }
}

/// `a` comes before `b`, or is `b`.
pub open spec fn lex_le(a: Seq<char>, b: Seq<char>) -> bool {
    !lex_lt(b, a)
}

/// A common beginning does not matter to the order.
pub proof fn lemma_lex_skip(a: Seq<char>, b: Seq<char>, i: int)
    requires
        0 <= i <= a.len(),
        i <= b.len(),
        a.take(i) == b.take(i),
    ensures
        lex_lt(a, b) == lex_lt(a.skip(i), b.skip(i)),
    decreases i,
{
    if i == 0 {
        assert(a.skip(0) =~= a);
        assert(b.skip(0) =~= b);
    } else {
        assert(a[0] == a.take(i)[0]);
        assert(b[0] == b.take(i)[0]);
        assert(a.drop_first().take(i - 1) =~= a.take(i).drop_first());
        assert(b.drop_first().take(i - 1) =~= b.take(i).drop_first());
        lemma_lex_skip(a.drop_first(), b.drop_first(), i - 1);
        assert(a.drop_first().skip(i - 1) =~= a.skip(i));
        assert(b.drop_first().skip(i - 1) =~= b.skip(i));
    }
}

/// Two strings are in the order of the first characters in which they differ. Where one is
/// the beginning of the other, the shorter comes first.
pub proof fn law_lex(a: Seq<char>, b: Seq<char>, i: int)
    requires
        0 <= i <= a.len(),
        i <= b.len(),
        forall|j: int| 0 <= j < i ==> a[j] == b[j],
    ensures
        i < a.len() && i < b.len() && a[i] != b[i] ==> (lex_lt(a, b) <==> a[i] < b[i]),
        i == a.len() ==> (lex_lt(a, b) <==> a.len() < b.len()),
        i == b.len() ==> !lex_lt(a, b),
{
    assert(a.take(i) =~= b.take(i));
    lemma_lex_skip(a, b, i);
}

/// Of two different strings exactly one comes before the other.
pub proof fn lemma_lex_total(a: Seq<char>, b: Seq<char>)
    ensures
        !(lex_lt(a, b) && lex_lt(b, a)),
        a == b <==> (!lex_lt(a, b) && !lex_lt(b, a)),
    decreases a.len(),
{
    if a.len() > 0 && b.len() > 0 {
        if a[0] == b[0] {
            lemma_lex_total(a.drop_first(), b.drop_first());
            if a.drop_first() == b.drop_first() {
                assert(a =~= seq![a[0]] + a.drop_first());
                assert(b =~= seq![b[0]] + b.drop_first());
            }
        }
    } else if a.len() == 0 && b.len() == 0 {
        assert(a =~= b);
    }
}

/// The order of strings is transitive.
pub proof fn lemma_lex_trans(a: Seq<char>, b: Seq<char>, c: Seq<char>)
    requires
        lex_lt(a, b),
        lex_lt(b, c),
    ensures
        lex_lt(a, c),
    decreases a.len(),
{
    if a.len() > 0 && b.len() > 0 && c.len() > 0 && a[0] == b[0] && b[0] == c[0] {
        lemma_lex_trans(a.drop_first(), b.drop_first(), c.drop_first());
    }
}

/// `lex_le` is transitive.
pub proof fn lemma_lex_le_trans(a: Seq<char>, b: Seq<char>, c: Seq<char>)
    requires
        lex_le(a, b),
        lex_le(b, c),
    ensures
        lex_le(a, c),
{
    lemma_lex_total(a, b);
    lemma_lex_total(b, c);
    lemma_lex_total(a, c);
    if a != b && b != c {
        lemma_lex_trans(a, b, c);
    }
}

/// Whether `a` comes before `b`.
pub fn str_before(a: &str, b: &str) -> (r: bool)
    ensures
        r == lex_lt(a@, b@),
{
    let x = chars_of(a);
    let y = chars_of(b);
    let mut i: usize = 0;
    while i < x.len() && i < y.len()
        invariant
            x@ == a@,
            y@ == b@,
            i <= x@.len(),
            i <= y@.len(),
            x@.take(i as int) == y@.take(i as int),
        decreases x@.len() - i,
    {
        if x[i] != y[i] {
            proof {
                lemma_lex_skip(x@, y@, i as int);
            }
            return x[i] < y[i];
        }
        assert(x@.take(i + 1) =~= x@.take(i as int).push(x@[i as int]));
        assert(y@.take(i + 1) =~= y@.take(i as int).push(y@[i as int]));
        i += 1;
    }
    proof {
        lemma_lex_skip(x@, y@, i as int);
    }
    i < y.len()
}

// ---------------------------------------------------------------------------
// Runs of one class of characters
// ---------------------------------------------------------------------------
/// A class of characters.
#[derive(Debug, Clone, Copy, PartialEq, Eq)]
pub enum CharClass {
    /// Unicode white space.
    Space,
    /// `.`, `-` and `_`.
    Separator,
    /// `.`.
    Dot,
    /// `0`.
    Zero,
    /// ASCII decimal digits.
    Digit,
    /// Unicode letters and numbers.
    Alphanumeric,
    /// Whatever is neither a Unicode letter nor a number.
    Other,
}

impl CharClass {
    /// `c` belongs to the class.
    pub open spec fn has(self, c: char) -> bool {
        match self {
            CharClass::Space => whitespace(c),
            CharClass::Separator => c == '.' || c == '-' || c == '_',
            CharClass::Dot => c == '.',
            CharClass::Zero => c == '0',
            CharClass::Digit => ascii_digit(c),
            CharClass::Alphanumeric => alphanumeric(c),
            CharClass::Other => !alphanumeric(c),
        }
    }

    /// Whether `c` belongs to the class.
    pub fn holds(self, c: char) -> (r: bool)
        ensures
            r == self.has(c),
            self == CharClass::Space && ascii_digit(c) ==> !r,
    {
        match self {
            CharClass::Space => c.is_whitespace(),
            CharClass::Separator => c == '.' || c == '-' || c == '_',
            CharClass::Dot => c == '.',
            CharClass::Zero => c == '0',
            CharClass::Digit => is_digit(c),
            CharClass::Alphanumeric => c.is_alphanumeric(),
            CharClass::Other => !c.is_alphanumeric(),
        }
    }
}

/// How many characters at the start of `s` belong to `k`.
pub open spec fn lead(s: Seq<char>, k: CharClass) -> int
    decreases s.len(),
{
    if s.len() > 0 && k.has(s[0]) {
        1 + lead(s.drop_first(), k)
    } else {
        0
    }
}

/// How many characters at the end of `s` belong to `k`.
pub open spec fn tail(s: Seq<char>, k: CharClass) -> int
    decreases s.len(),
{
    if s.len() > 0 && k.has(s.last()) {
        1 + tail(s.drop_last(), k)
    } else {
        0
    }
}

/// The run counted by `lead` is the longest one of its class.
pub proof fn lemma_lead(s: Seq<char>, k: CharClass)
    ensures
        0 <= lead(s, k) <= s.len(),
        forall|i: int| 0 <= i < lead(s, k) ==> k.has(#[trigger] s[i]),
        lead(s, k) < s.len() ==> !k.has(s[lead(s, k)]),
    decreases s.len(),
{
    if s.len() > 0 && k.has(s[0]) {
        let t = s.drop_first();
        lemma_lead(t, k);
        assert forall|i: int| 0 <= i < lead(s, k) implies k.has(#[trigger] s[i]) by {
            if i > 0 {
                assert(s[i] == t[i - 1]);
            }
        }
    }
}

/// The run counted by `tail` is the longest one of its class.
pub proof fn lemma_tail(s: Seq<char>, k: CharClass)
    ensures
        0 <= tail(s, k) <= s.len(),
        forall|i: int| s.len() - tail(s, k) <= i < s.len() ==> k.has(#[trigger] s[i]),
        tail(s, k) < s.len() ==> !k.has(s[s.len() - tail(s, k) - 1]),
    decreases s.len(),
{
    if s.len() > 0 && k.has(s.last()) {
        let t = s.drop_last();
        lemma_tail(t, k);
        assert forall|i: int| s.len() - tail(s, k) <= i < s.len() implies k.has(#[trigger] s[i]) by {
            if i < s.len() - 1 {
                assert(s[i] == t[i]);
            }
        }
    }
}

/// A run that cannot be made longer is the one that `lead` counts.
pub proof fn lemma_lead_is(s: Seq<char>, k: CharClass, n: int)
    requires
        0 <= n <= s.len(),
        forall|i: int| 0 <= i < n ==> k.has(#[trigger] s[i]),
        n < s.len() ==> !k.has(s[n]),
    ensures
        lead(s, k) == n,
{
    lemma_lead(s, k);
    if lead(s, k) < n {
        assert(k.has(s[lead(s, k)]));
    }
}

/// `s` without the characters of `k` at its start.
pub open spec fn trim_start(s: Seq<char>, k: CharClass) -> Seq<char> {
    s.skip(lead(s, k))
}

/// `s` without the characters of `k` at its end.
pub open spec fn trim_end(s: Seq<char>, k: CharClass) -> Seq<char> {
    s.take(s.len() - tail(s, k))
}

/// `s` without the characters of `k` at either end.
pub open spec fn trim_both(s: Seq<char>, k: CharClass) -> Seq<char> {
    trim_end(trim_start(s, k), k)
}

/// How many characters at the start of `s` belong to `k`.
pub fn lead_len(s: &[char], k: CharClass) -> (r: usize)
    ensures
        r == lead(s@, k),
        r <= s@.len(),
        k == CharClass::Space && s@.len() > 0 && ascii_digit(s@[0]) ==> r == 0,
{
    let mut i: usize = 0;
    while i < s.len() && k.holds(s[i])
        invariant
            i <= s@.len(),
            k == CharClass::Space && s@.len() > 0 && ascii_digit(s@[0]) ==> i == 0,
            forall|j: int| 0 <= j < i ==> k.has(#[trigger] s@[j]),
        decreases s@.len() - i,
    {
        i += 1;
    }
    proof {
        lemma_lead_is(s@, k, i as int);
    }
    i
}

/// `s` without the characters of `k` at either end. An ASCII digit is no white space.
pub fn trimmed(s: &str, k: CharClass) -> (r: String)
    ensures
        r@ == trim_both(s@, k),
        k == CharClass::Space && s@.len() > 0 && ascii_digit(s@[0]) && ascii_digit(s@.last())
            ==> r@ == s@,
{
    let c = chars_of(s);
    let from = lead_len(c.as_slice(), k);
    let ghost t = trim_start(s@, k);
    let mut to: usize = c.len();
    assert(t.take(to - from) =~= t);
    while to > from && k.holds(c[to - 1])
        invariant
            c@ == s@,
            t == s@.skip(from as int),
            from <= to <= c@.len(),
            k == CharClass::Space && s@.len() > 0 && ascii_digit(s@[0]) && ascii_digit(s@.last())
                ==> from == 0 && to == c@.len(),
            tail(t, k) == tail(t.take(to - from), k) + (c@.len() - to),
        decreases to,
    {
        assert(t.take(to - from).last() == c@[to - 1]);
        assert(t.take(to - from).drop_last() =~= t.take(to - 1 - from));
        to -= 1;
    }
    proof {
        if to > from {
            assert(t.take(to - from).last() == c@[to - 1]);
        }
        assert(c@.subrange(from as int, to as int) =~= trim_both(s@, k));
        assert(s@.subrange(0, s@.len() as int) =~= s@);
    }
    string_of_range(c.as_slice(), from, to)
}

/// `s` without the characters of `k` at its start.
pub fn trimmed_start(s: &str, k: CharClass) -> (r: String)
    ensures
        r@ == trim_start(s@, k),
{
    let c = chars_of(s);
    let from = lead_len(c.as_slice(), k);
    assert(c@.subrange(from as int, c@.len() as int) =~= trim_start(s@, k));
    string_of_range(c.as_slice(), from, c.len())
}

/// What `trim_both` leaves neither begins nor ends with a character of `k`.
pub proof fn lemma_trim_both(s: Seq<char>, k: CharClass)
    ensures
        trim_both(s, k).len() > 0 ==> !k.has(trim_both(s, k)[0]) && !k.has(trim_both(s, k).last()),
{
    lemma_lead(s, k);
    let t = trim_start(s, k);
    lemma_tail(t, k);
    if trim_both(s, k).len() > 0 {
        assert(t[0] == s[lead(s, k)]);
    }
}

/// What trimming takes away are the characters of `k` at either end, all of them, and
/// nothing else.
pub proof fn law_trim(s: Seq<char>, k: CharClass)
    ensures
        exists|a: int, b: int|
            0 <= a <= b <= s.len() && trim_both(s, k) == #[trigger] s.subrange(a, b) && forall|
                i: int,
            |
                (0 <= i < a || b <= i < s.len()) ==> k.has(#[trigger] s[i]),
        trim_both(s, k).len() > 0 ==> !k.has(trim_both(s, k)[0]) && !k.has(trim_both(s, k).last()),
{
    lemma_trim_both(s, k);
    lemma_lead(s, k);
    let a = lead(s, k);
    let t = trim_start(s, k);
    lemma_tail(t, k);
    let b = s.len() - tail(t, k);
    assert(trim_both(s, k) =~= s.subrange(a, b));
    assert forall|i: int| (0 <= i < a || b <= i < s.len()) implies k.has(#[trigger] s[i]) by {
        if b <= i {
            assert(t[i - a] == s[i]);
        }
    }
}

/// Trimming the start takes away the characters of `k` there, all of them, and nothing else.
pub proof fn law_trim_start(s: Seq<char>, k: CharClass)
    ensures
        ({
            let n = s.len() - trim_start(s, k).len();
            &&& 0 <= n <= s.len()
            &&& trim_start(s, k) == s.skip(n)
            &&& forall|i: int| 0 <= i < n ==> k.has(#[trigger] s[i])
            &&& n < s.len() ==> !k.has(s[n])
        }),
{
    lemma_lead(s, k);
}

/// What each class holds, as far as it does not rest on the tables of Unicode.
pub proof fn law_classes(c: char)
    ensures
        CharClass::Separator.has(c) <==> (c == '.' || c == '-' || c == '_'),
        CharClass::Dot.has(c) <==> c == '.',
        CharClass::Zero.has(c) <==> c == '0',
        CharClass::Digit.has(c) <==> '0' <= c <= '9',
        CharClass::Other.has(c) <==> !CharClass::Alphanumeric.has(c),
{
}

// ---------------------------------------------------------------------------
// Decimals
// ---------------------------------------------------------------------------
/// The character of the decimal digit `d`.
pub open spec fn digit_char(d: int) -> char {
    ((d + 48) as u8) as char
}

/// `n` in decimal, without leading zeros.
pub open spec fn decimal(n: nat) -> Seq<char>
    decreases n,
{
    if n < 10 {
        seq![digit_char(n as int)]
    } else {
        decimal(n / 10).push(digit_char((n % 10) as int))
    }
}

/// `n` in decimal, with a minus sign where it is negative.
pub open spec fn signed_decimal(n: int) -> Seq<char> {
    if n < 0 {
        seq!['-'] + decimal((-n) as nat)
    } else {
        decimal(n as nat)
    }
}

/// `count` times the character `c`.
pub open spec fn repeated(c: char, count: int) -> Seq<char> {
    Seq::new(if count < 0 { 0 } else { count as nat }, |i: int| c)
}

/// `n` in decimal, filled up to `width` characters with zeros behind the sign.
pub open spec fn padded(n: int, width: int) -> Seq<char> {
    if n < 0 {
        seq!['-'] + repeated('0', width - 1 - decimal((-n) as nat).len()) + decimal((-n) as nat)
    } else {
        repeated('0', width - decimal(n as nat).len()) + decimal(n as nat)
    }
}

/// The number that the decimal digits `s` write.
pub open spec fn number_in(s: Seq<char>) -> int
    decreases s.len(),
{
    if s.len() == 0 {
        0
    } else {
        number_in(s.drop_last()) * 10 + (s.last() as int - '0' as int)
    }
}

/// A decimal is made of digits, writes its number, and has no zero before other digits.
pub proof fn law_decimal(n: nat)
    ensures
        decimal(n).len() > 0,
        forall|i: int| 0 <= i < decimal(n).len() ==> '0' <= #[trigger] decimal(n)[i] <= '9',
        number_in(decimal(n)) == n,
        decimal(n).len() > 1 ==> decimal(n)[0] != '0',
        decimal(n)[0] == '0' ==> n == 0,
    decreases n,
{
    if n < 10 {
        assert(decimal(n).drop_last() =~= Seq::empty());
        assert(number_in(Seq::<char>::empty()) == 0);
        assert(number_in(decimal(n)) == number_in(decimal(n).drop_last()) * 10 + (decimal(
            n,
        ).last() as int - '0' as int));
    } else {
        let t = decimal(n / 10);
        law_decimal(n / 10);
        assert(decimal(n).drop_last() =~= t);
        assert(decimal(n)[0] == t[0]);
        assert(n == (n / 10) * 10 + n % 10);
    }
}

/// A number that is filled up is its decimal behind zeros, as long as is asked for, or
/// longer where its decimal is. A sign stands before the zeros.
pub proof fn law_padded(n: int, width: int)
    ensures
        ({
            let sign: int = if n < 0 { 1 } else { 0 };
            let d = decimal(if n < 0 { (-n) as nat } else { n as nat });
            let p = padded(n, width);
            &&& p.len() == if sign + d.len() < width { width } else { sign + d.len() }
            &&& n < 0 ==> p[0] == '-'
            &&& p.skip(p.len() - d.len()) == d
            &&& forall|i: int| sign <= i < p.len() - d.len() ==> #[trigger] p[i] == '0'
        }),
{
    let d = decimal(if n < 0 { (-n) as nat } else { n as nat });
    let p = padded(n, width);
    assert(p.skip(p.len() - d.len()) =~= d);
}

/// `n` in decimal.
pub fn decimal_of(n: u64) -> (r: String)
    ensures
        r@ == decimal(n as nat),
    decreases n,
{
    if n < 10 {
        let mut out = String::new();
        out.push((n as u8 + 48) as char);
        assert(out@ =~= seq![digit_char(n as int)]);
        out
    } else {
        let mut out = decimal_of(n / 10);
        out.push(((n % 10) as u8 + 48) as char);
        out
    }
}

/// The size of `n` without its sign.
fn magnitude(n: i64) -> (r: u64)
    ensures
        r as int == if n < 0 { -n } else { n as int },
{
    if n >= 0 {
        n as u64
    } else if n == i64::MIN {
        0x8000_0000_0000_0000
    } else {
        (-n) as u64
    }
}

/// `n` in decimal, with its sign.
pub fn signed_decimal_of(n: i64) -> (r: String)
    ensures
        r@ == signed_decimal(n as int),
{
    let digits = decimal_of(magnitude(n));
    if n < 0 {
        let mut out = String::new();
        out.push('-');
        out.append(digits.as_str());
        assert(out@ =~= signed_decimal(n as int));
        out
    } else {
        digits
    }
}

/// `n` in decimal, filled up with zeros to `width` characters.
pub fn padded_of(n: i64, width: usize) -> (r: String)
    ensures
        r@ == padded(n as int, width as int),
{
    let digits = decimal_of(magnitude(n));
    let count = digits.as_str().unicode_len();
    let mut out = String::new();
    let mut have: usize = count;
    if n < 0 {
        out.push('-');
        if have < width {
            have += 1;
        }
    }
    let ghost sign: Seq<char> = if n < 0 { seq!['-'] } else { seq![] };
    let ghost start: int = have as int;
    assert(out@ =~= sign);
    while have < width
        invariant
            start <= have,
            have <= width || have == start,
            out@ == sign + repeated('0', have - start),
        decreases width - have,
    {
        out.push('0');
        have += 1;
        assert(out@ =~= sign + repeated('0', have - start));
    }
    out.append(digits.as_str());
    assert(out@ =~= padded(n as int, width as int));
    out
}

/// A negative number is written with a sign before its digits, and any other without one.
pub proof fn law_signed_decimal(n: int)
    ensures
        n >= 0 ==> signed_decimal(n) == decimal(n as nat),
        n < 0 ==> signed_decimal(n).len() > 0 && signed_decimal(n)[0] == '-' && signed_decimal(
            n,
        ).skip(1) == decimal((-n) as nat),
{
    if n < 0 {
        assert(signed_decimal(n).skip(1) =~= decimal((-n) as nat));
    }
}

} // verus!
