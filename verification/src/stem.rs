//! Stems made comparable: compatibility characters and whitespace.

use vstd::prelude::*;

use crate::text::{ascii_char, chars_of, copy_of, is_ascii_char, string_of_range};
use crate::unicode::{nfkd, nfkd_form};

verus! {

/// A space or a tab.
pub open spec fn is_gap(c: char) -> bool {
    c == ' ' || c == '\t'
}

/// `s` with each run of spaces and tabs made one space, and none at the start.
pub open spec fn squeezed(s: Seq<char>) -> Seq<char>
    decreases s.len(),
{
    if s.len() == 0 {
        s
    } else {
        let t = squeezed(s.drop_last());
        if !is_gap(s.last()) {
            t.push(s.last())
        } else if t.len() == 0 || t.last() == ' ' {
            t
        } else {
            t.push(' ')
        }
    }
}

/// `s` with each run of spaces and tabs made one space, and none at either end.
pub open spec fn folded(s: Seq<char>) -> Seq<char> {
    let t = squeezed(s);
    if t.len() > 0 && t.last() == ' ' {
        t.drop_last()
    } else {
        t
    }
}

/// `s` holds two spaces in a row.
pub open spec fn double_space(s: Seq<char>) -> bool {
    exists|i: int| 0 <= i < s.len() - 1 && #[trigger] s[i] == ' ' && s[i + 1] == ' '
}

/// Some whitespace of `s` has to be folded.
pub open spec fn needs_fold(s: Seq<char>) -> bool {
    ||| s.contains('\t')
    ||| s.len() > 0 && s[0] == ' '
    ||| s.len() > 0 && s.last() == ' '
    ||| double_space(s)
}

proof fn lemma_squeezed(s: Seq<char>)
    ensures
        !squeezed(s).contains('\t'),
        squeezed(s).len() > 0 ==> squeezed(s)[0] != ' ',
        !double_space(squeezed(s)),
    decreases s.len(),
{
    if s.len() > 0 {
        let t = squeezed(s.drop_last());
        lemma_squeezed(s.drop_last());
        let r = squeezed(s);
        if r.contains('\t') {
            let i = choose|i: int| 0 <= i < r.len() && r[i] == '\t';
            assert(t[i] == '\t');
        }
        if double_space(r) {
            let i = choose|i: int| 0 <= i < r.len() - 1 && #[trigger] r[i] == ' ' && r[i + 1] == ' ';
            assert(t[i] == ' ');
        }
    }
}

proof fn lemma_squeezed_same(s: Seq<char>)
    requires
        !s.contains('\t'),
        s.len() > 0 ==> s[0] != ' ',
        !double_space(s),
    ensures
        squeezed(s) == s,
    decreases s.len(),
{
    if s.len() > 0 {
        let t = s.drop_last();
        if t.contains('\t') {
            let i = choose|i: int| 0 <= i < t.len() && t[i] == '\t';
            assert(s[i] == '\t');
        }
        if double_space(t) {
            let i = choose|i: int| 0 <= i < t.len() - 1 && #[trigger] t[i] == ' ' && t[i + 1] == ' ';
            assert(s[i] == ' ');
        }
        lemma_squeezed_same(t);
        assert(s[s.len() - 1] != '\t');
        if s.last() == ' ' && t.len() > 0 {
            assert(s[s.len() - 2] != ' ');
        }
        assert(s =~= t.push(s.last()));
    }
}

/// What has been folded needs no folding, and what needs none stays as it is:
/// folding twice is folding once.
pub proof fn law_fold_once(s: Seq<char>)
    ensures
        !needs_fold(folded(s)),
        !needs_fold(s) ==> folded(s) == s,
        folded(folded(s)) == folded(s),
{
    lemma_squeezed(s);
    let t = squeezed(s);
    let r = folded(s);
    if r.contains('\t') {
        let i = choose|i: int| 0 <= i < r.len() && r[i] == '\t';
        assert(t[i] == '\t');
    }
    if double_space(r) {
        let i = choose|i: int| 0 <= i < r.len() - 1 && #[trigger] r[i] == ' ' && r[i + 1] == ' ';
        assert(t[i] == ' ');
    }
    if r.len() > 0 && r.last() == ' ' {
        assert(t.len() == r.len() + 1);
        assert(t[r.len() - 1] == ' ');
    }
    if !needs_fold(s) {
        lemma_squeezed_same(s);
    }
    lemma_squeezed_same(r);
}

/// The runs of characters of `s` that are neither space nor tab.
pub open spec fn words(s: Seq<char>) -> Seq<Seq<char>>
    decreases s.len(),
{
    if s.len() == 0 {
        Seq::empty()
    } else {
        let w = words(s.drop_last());
        if is_gap(s.last()) {
            w
        } else if s.len() == 1 || is_gap(s[s.len() - 2]) {
            w.push(seq![s.last()])
        } else {
            w.update(w.len() - 1, w.last().push(s.last()))
        }
    }
}

/// The words with one space between each two.
pub open spec fn spaced(words: Seq<Seq<char>>) -> Seq<char>
    decreases words.len(),
{
    if words.len() == 0 {
        Seq::empty()
    } else if words.len() == 1 {
        words[0]
    } else {
        spaced(words.drop_last()).push(' ') + words.last()
    }
}

proof fn lemma_words(s: Seq<char>)
    ensures
        forall|i: int|
            0 <= i < words(s).len() ==> (#[trigger] words(s)[i]).len() > 0 && forall|k: int|
                0 <= k < words(s)[i].len() ==> !is_gap(#[trigger] words(s)[i][k]),
        s.len() > 0 && !is_gap(s.last()) ==> words(s).len() > 0,
        squeezed(s) == if words(s).len() > 0 && is_gap(s.last()) {
            spaced(words(s)).push(' ')
        } else {
            spaced(words(s))
        },
        words(s).len() > 0 ==> spaced(words(s)).len() > 0 && !is_gap(spaced(words(s)).last()),
    decreases s.len(),
{
    if s.len() > 0 {
        let t = s.drop_last();
        let w = words(t);
        let c = s.last();
        let v = words(s);
        lemma_words(t);
        if !is_gap(c) {
            if s.len() == 1 || is_gap(s[s.len() - 2]) {
                assert(v.drop_last() =~= w);
                assert(v.last() == seq![c]);
                assert(squeezed(s) =~= spaced(v));
            } else {
                assert(t.last() == s[s.len() - 2]);
                assert(v.drop_last() =~= w.drop_last());
                assert(v.last() == w.last().push(c));
                assert(squeezed(s) =~= spaced(v));
                assert forall|i: int| 0 <= i < v.len() implies (#[trigger] v[i]).len() > 0
                    && forall|k: int| 0 <= k < v[i].len() ==> !is_gap(#[trigger] v[i][k]) by {
                    assert(w[i].len() > 0);
                    if i == v.len() - 1 {
                        assert forall|k: int| 0 <= k < v[i].len() implies !is_gap(
                            #[trigger] v[i][k],
                        ) by {
                            if k < w[i].len() {
                                assert(v[i][k] == w[i][k]);
                            }
                        }
                    } else {
                        assert(v[i] == w[i]);
                    }
                }
            }
        }
    }
}

/// Folding takes the words of a text, none of which is empty or holds a space or a tab, and
/// puts one space between each two.
pub proof fn law_fold_words(s: Seq<char>)
    ensures
        folded(s) == spaced(words(s)),
        forall|i: int|
            0 <= i < words(s).len() ==> (#[trigger] words(s)[i]).len() > 0 && forall|k: int|
                0 <= k < words(s)[i].len() ==> !is_gap(#[trigger] words(s)[i][k]),
{
    lemma_words(s);
    if words(s).len() > 0 && is_gap(s.last()) {
        assert(squeezed(s).drop_last() =~= spaced(words(s)));
    }
}

/// Whether some whitespace of `s` has to be folded.
pub fn needs_whitespace_fold(s: &str) -> (r: bool)
    ensures
        r == needs_fold(s@),
{
    let c = chars_of(s);
    if c.len() == 0 {
        return false;
    }
    if c[0] == ' ' || c[c.len() - 1] == ' ' {
        return true;
    }
    let mut i: usize = 0;
    while i < c.len()
        invariant
            i <= c@.len(),
            c@ == s@,
            c@.len() > 0,
            c@[c@.len() - 1] != ' ',
            forall|j: int| 0 <= j < i ==> c@[j] != '\t',
            forall|j: int| 0 <= j < i && j < c@.len() - 1 ==> !(#[trigger] c@[j] == ' ' && c@[j + 1] == ' '),
        decreases c@.len() - i,
    {
        if c[i] == '\t' {
            assert(s@[i as int] == '\t');
            return true;
        }
        if c[i] == ' ' {
            if c[i + 1] == ' ' {
                assert(s@[i as int] == ' ');
                return true;
            }
        }
        i += 1;
    }
    false
}

/// `s` with each run of spaces and tabs made one space, and none at either end.
pub fn fold_ascii_whitespace(s: &str) -> (r: String)
    ensures
        r@ == folded(s@),
{
    let c = chars_of(s);
    let mut out: Vec<char> = Vec::new();
    let mut i: usize = 0;
    while i < c.len()
        invariant
            i <= c@.len(),
            c@ == s@,
            out@ == squeezed(s@.take(i as int)),
        decreases c@.len() - i,
    {
        proof {
            assert(s@.take(i + 1).drop_last() =~= s@.take(i as int));
        }
        if c[i] != ' ' && c[i] != '\t' {
            out.push(c[i]);
        } else if out.len() > 0 && out[out.len() - 1] != ' ' {
            out.push(' ');
        }
        i += 1;
    }
    assert(s@.take(i as int) =~= s@);
    let mut n: usize = out.len();
    if n > 0 && out[n - 1] == ' ' {
        n -= 1;
    }
    let r = string_of_range(&out, 0, n);
    assert(r@ =~= folded(s@));
    r
}

/// Every character of `s` is ASCII.
pub open spec fn plain(s: Seq<char>) -> bool {
    forall|i: int| 0 <= i < s.len() ==> ascii_char(#[trigger] s[i])
}

/// The form in which stems are compared: NFKD, which leaves ASCII as it is, with
/// the whitespace folded.
pub open spec fn comparable(s: Seq<char>) -> Seq<char> {
    folded(
        if plain(s) {
            s
        } else {
            nfkd_form(s)
        },
    )
}

/// Whether every character of `s` is ASCII.
fn is_plain(s: &str) -> (r: bool)
    ensures
        r == plain(s@),
{
    let c = chars_of(s);
    let mut i: usize = 0;
    while i < c.len()
        invariant
            i <= c@.len(),
            c@ == s@,
            forall|j: int| 0 <= j < i ==> ascii_char(#[trigger] s@[j]),
        decreases c@.len() - i,
    {
        if !is_ascii_char(c[i]) {
            assert(!ascii_char(s@[i as int]));
            return false;
        }
        i += 1;
    }
    true
}

proof fn lemma_plain_fold(s: Seq<char>)
    requires
        plain(s),
    ensures
        plain(squeezed(s)),
        plain(folded(s)),
    decreases s.len(),
{
    if s.len() > 0 {
        let t = s.drop_last();
        assert forall|i: int| 0 <= i < t.len() implies ascii_char(#[trigger] t[i]) by {
            assert(t[i] == s[i]);
        }
        assert(ascii_char(s[s.len() - 1]));
        lemma_plain_fold(t);
    }
}

/// The form in which stems are compared: NFKD, with the whitespace folded. The form of
/// what is in the form already is itself.
pub fn normalize_stem(s: &str) -> (r: String)
    ensures
        r@ == comparable(s@),
        comparable(r@) == r@,
        !needs_fold(r@),
{
    let t = if is_plain(s) {
        proof {
            lemma_plain_fold(s@);
        }
        copy_of(s)
    } else {
        nfkd(s)
    };
    proof {
        law_fold_once(t@);
    }
    if needs_whitespace_fold(t.as_str()) {
        fold_ascii_whitespace(t.as_str())
    } else {
        t
    }
}

/// Folding leaves every character but spaces and tabs as it is, in its order, and a text
/// without spaces and tabs altogether.
pub proof fn law_fold_keeps(s: Seq<char>)
    ensures
        folded(s).filter(|c: char| c != ' ' && c != '\t') == s.filter(
            |c: char| c != ' ' && c != '\t',
        ),
        (forall|i: int| 0 <= i < s.len() ==> #[trigger] s[i] != ' ' && s[i] != '\t') ==> folded(s)
            == s,
{
    let p = |c: char| c != ' ' && c != '\t';
    lemma_squeezed_keeps(s);
    let t = squeezed(s);
    reveal(Seq::filter);
    if t.len() > 0 && t.last() == ' ' {
        assert(t.filter(p) == t.drop_last().filter(p));
    }
    if forall|i: int| 0 <= i < s.len() ==> #[trigger] s[i] != ' ' && s[i] != '\t' {
        assert(!needs_fold(s));
        law_fold_once(s);
    }
}

proof fn lemma_squeezed_keeps(s: Seq<char>)
    ensures
        squeezed(s).filter(|c: char| c != ' ' && c != '\t') == s.filter(
            |c: char| c != ' ' && c != '\t',
        ),
    decreases s.len(),
{
    reveal(Seq::filter);
    let p = |c: char| c != ' ' && c != '\t';
    if s.len() > 0 {
        let t = squeezed(s.drop_last());
        lemma_squeezed_keeps(s.drop_last());
        assert(t.push(s.last()).drop_last() =~= t);
        assert(t.push(' ').drop_last() =~= t);
        if p(s.last()) {
            assert(s.filter(p) == s.drop_last().filter(p).push(s.last()));
            assert(t.push(s.last()).filter(p) == t.filter(p).push(s.last()));
        } else {
            assert(s.filter(p) == s.drop_last().filter(p));
            assert(t.push(' ').filter(p) == t.filter(p));
        }
    }
}

/// What stands apart stays apart, by one space, whatever spaces and tabs were between.
pub proof fn law_fold_apart(a: Seq<char>, gap: Seq<char>, b: Seq<char>)
    requires
        a.len() > 0,
        a.last() != ' ' && a.last() != '\t',
        gap.len() > 0,
        forall|i: int| 0 <= i < gap.len() ==> (#[trigger] gap[i] == ' ' || gap[i] == '\t'),
        b.len() > 0,
        b[0] != ' ' && b[0] != '\t',
    ensures
        folded(a + gap + b) == folded(a).push(' ') + folded(b),
{
    lemma_squeezed_gap(a, gap);
    lemma_squeezed_on(a + gap, b);
    let x = squeezed(a);
    let y = squeezed(b);
    assert(x.last() == a.last());
    assert(squeezed(a + gap + b) == x.push(' ') + y);
    assert((x.push(' ') + y).last() == y.last());
    if y.last() == ' ' {
        assert((x.push(' ') + y).drop_last() =~= x.push(' ') + y.drop_last());
    }
}

/// Spaces and tabs at either end of a text go.
pub proof fn law_fold_ends(before: Seq<char>, s: Seq<char>, behind: Seq<char>)
    requires
        forall|i: int| 0 <= i < before.len() ==> (#[trigger] before[i] == ' ' || before[i] == '\t'),
        forall|i: int| 0 <= i < behind.len() ==> (#[trigger] behind[i] == ' ' || behind[i] == '\t'),
        s.len() > 0,
        s[0] != ' ' && s[0] != '\t',
        s.last() != ' ' && s.last() != '\t',
    ensures
        folded(before + s + behind) == folded(s),
{
    lemma_squeezed_blank(before);
    lemma_squeezed_on(before, s);
    assert(Seq::<char>::empty() + squeezed(s) =~= squeezed(s));
    let x = squeezed(s);
    assert(x.last() == s.last());
    if behind.len() == 0 {
        assert(before + s + behind =~= before + s);
    } else {
        lemma_squeezed_gap(before + s, behind);
        assert(x.push(' ').drop_last() =~= x);
    }
}

proof fn lemma_squeezed_blank(s: Seq<char>)
    requires
        forall|i: int| 0 <= i < s.len() ==> (#[trigger] s[i] == ' ' || s[i] == '\t'),
    ensures
        squeezed(s).len() == 0,
    decreases s.len(),
{
    if s.len() > 0 {
        let t = s.drop_last();
        assert forall|i: int| 0 <= i < t.len() implies (#[trigger] t[i] == ' ' || t[i] == '\t') by {
            assert(t[i] == s[i]);
        }
        lemma_squeezed_blank(t);
        assert(s[s.len() - 1] == ' ' || s[s.len() - 1] == '\t');
    }
}

proof fn lemma_squeezed_gap(a: Seq<char>, gap: Seq<char>)
    requires
        a.len() > 0,
        !is_gap(a.last()),
        gap.len() > 0,
        forall|i: int| 0 <= i < gap.len() ==> (#[trigger] gap[i] == ' ' || gap[i] == '\t'),
    ensures
        squeezed(a + gap) == squeezed(a).push(' '),
    decreases gap.len(),
{
    let s = a + gap;
    let g = gap.drop_last();
    assert(s.drop_last() =~= a + g);
    assert(s.last() == gap[gap.len() - 1]);
    if g.len() == 0 {
        assert(a + g =~= a);
        assert(squeezed(a).last() == a.last());
    } else {
        assert forall|i: int| 0 <= i < g.len() implies (#[trigger] g[i] == ' ' || g[i] == '\t') by {
            assert(g[i] == gap[i]);
        }
        lemma_squeezed_gap(a, g);
    }
}

proof fn lemma_squeezed_on(a: Seq<char>, b: Seq<char>)
    requires
        b.len() > 0,
        !is_gap(b[0]),
    ensures
        squeezed(b).len() > 0,
        squeezed(a + b) == squeezed(a) + squeezed(b),
    decreases b.len(),
{
    let s = a + b;
    let t = b.drop_last();
    assert(s.drop_last() =~= a + t);
    assert(s.last() == b.last());
    if t.len() == 0 {
        assert(a + t =~= a);
        assert(squeezed(t).len() == 0);
        assert(squeezed(b) =~= seq![b.last()]);
        assert(squeezed(s) =~= squeezed(a) + squeezed(b));
    } else {
        assert(t[0] == b[0]);
        lemma_squeezed_on(a, t);
        let x = squeezed(a) + squeezed(t);
        assert(x.last() == squeezed(t).last());
        assert(squeezed(s) =~= squeezed(a) + squeezed(b));
    }
}

} // verus!
