//! Paths: their last component, their parent and how they are joined.
//!
//! Components are parted by `/`. Empty components and `.` count for nothing, but
//! for a `.` at the start of a relative path.

use vstd::prelude::*;
use vstd::string::*;

use crate::pattern::{opt_view, views};
use crate::text::{chars_of, copy_of, last_index, lemma_last_index, string_of_range};

verus! {

/// The number of characters before the components: a leading `/`, or a leading `.`
/// that is a component of its own.
pub open spec fn body_start(s: Seq<char>) -> int {
    if s.len() > 0 && s[0] == '/' {
        1
    } else if s.len() > 0 && s[0] == '.' && (s.len() == 1 || s[1] == '/') {
        1
    } else {
        0
    }
}

/// Where the last component of `s` begins, with `b` characters before the components.
pub open spec fn cut(s: Seq<char>, b: int) -> int {
    match last_index(s.skip(b), '/') {
        Some(i) => b + i + 1,
        None => b,
    }
}

/// Where what stands before the last component of `s` ends.
pub open spec fn rest_end(s: Seq<char>, b: int) -> int {
    match last_index(s.skip(b), '/') {
        Some(i) => b + i,
        None => b,
    }
}

/// A component that counts for nothing.
pub open spec fn is_void(c: Seq<char>) -> bool {
    c.len() == 0 || c == seq!['.']
}

/// `s` without the components at its end that count for nothing.
pub open spec fn settled(s: Seq<char>, b: int) -> Seq<char>
    decreases s.len(),
{
    if b < 0 || s.len() <= b || !is_void(s.skip(cut(s, b))) || rest_end(s, b) >= s.len()
        || rest_end(s, b) < 0 {
        s
    } else {
        settled(s.take(rest_end(s, b)), b)
    }
}

/// The components of `s`, with `b` characters before them. A leading `/` or `.` is
/// one of them.
pub open spec fn parts_from(s: Seq<char>, b: int) -> Seq<Seq<char>>
    decreases s.len(),
{
    if b < 0 || s.len() <= b {
        if b == 1 && s.len() == 1 {
            seq![s]
        } else {
            Seq::empty()
        }
    } else if rest_end(s, b) >= s.len() || rest_end(s, b) < 0 {
        Seq::empty()
    } else {
        let rest = parts_from(s.take(rest_end(s, b)), b);
        let c = s.skip(cut(s, b));
        if is_void(c) {
            rest
        } else {
            rest.push(c)
        }
    }
}

/// The components of the path `s`.
pub open spec fn parts(s: Seq<char>) -> Seq<Seq<char>> {
    parts_from(s, body_start(s))
}

/// `a` and `b` have the same components.
pub open spec fn same_path(a: Seq<char>, b: Seq<char>) -> bool {
    parts(a) == parts(b)
}

/// Paths of which one may be absent are the same.
pub open spec fn same_opt_path(a: Option<Seq<char>>, b: Option<Seq<char>>) -> bool {
    match (a, b) {
        (Some(x), Some(y)) => same_path(x, y),
        (None, None) => true,
        _ => false,
    }
}

/// The name at the end of the path, where it ends in one.
pub open spec fn name_part(s: Seq<char>) -> Option<Seq<char>> {
    let b = body_start(s);
    let t = settled(s, b);
    let c = t.skip(cut(t, b));
    if t.len() <= b || c == seq!['.', '.'] {
        None
    } else {
        Some(c)
    }
}

/// The path without its last component, where there is one besides a leading `/`.
pub open spec fn parent_part(s: Seq<char>) -> Option<Seq<char>> {
    let b = body_start(s);
    let t = settled(s, b);
    if t.len() > b {
        Some(settled(t.take(rest_end(t, b)), b))
    } else if b == 1 && s[0] == '.' {
        Some(Seq::empty())
    } else {
        None
    }
}

/// `b` put below `a`. An absolute `b` stands alone.
pub open spec fn joined(a: Seq<char>, b: Seq<char>) -> Seq<char> {
    if b.len() > 0 && b[0] == '/' {
        b
    } else if a.len() > 0 && a.last() != '/' {
        a.push('/') + b
    } else {
        a + b
    }
}

/// A name that is one component.
pub open spec fn plain_name(n: Seq<char>) -> bool {
    &&& n.len() > 0
    &&& !n.contains('/')
    &&& n != seq!['.']
    &&& n != seq!['.', '.']
}

proof fn lemma_cut(s: Seq<char>, b: int)
    requires
        0 <= b < s.len(),
    ensures
        b <= rest_end(s, b) <= cut(s, b) <= s.len(),
        rest_end(s, b) < s.len(),
        cut(s, b) == rest_end(s, b) || cut(s, b) == rest_end(s, b) + 1,
        forall|i: int| cut(s, b) <= i < s.len() ==> s[i] != '/',
        cut(s, b) > b ==> s[cut(s, b) - 1] == '/' && rest_end(s, b) == cut(s, b) - 1,
        cut(s, b) == b ==> rest_end(s, b) == b,
{
    let t = s.skip(b);
    lemma_last_index(t, '/');
    assert forall|i: int| cut(s, b) <= i < s.len() implies s[i] != '/' by {
        assert(t[i - b] == s[i]);
    }
}

proof fn lemma_cut_is(s: Seq<char>, b: int, k: int)
    requires
        0 <= b < s.len(),
        b <= k <= s.len(),
        k > b ==> s[k - 1] == '/',
        forall|i: int| k <= i < s.len() ==> s[i] != '/',
    ensures
        cut(s, b) == k,
        rest_end(s, b) == if k > b {
            k - 1
        } else {
            k
        },
{
    lemma_cut(s, b);
    if cut(s, b) > k {
        assert(s[cut(s, b) - 1] != '/');
    }
    if cut(s, b) < k {
        assert(s[k - 1] != '/');
    }
}

proof fn lemma_settled(s: Seq<char>, b: int)
    requires
        b == body_start(s),
    ensures
        s.len() >= b,
        settled(s, b).len() >= b,
        settled(s, b).len() <= s.len(),
        settled(s, b) == s.take(settled(s, b).len() as int),
        body_start(settled(s, b)) == b,
        settled(s, b).len() > b ==> !is_void(settled(s, b).skip(cut(settled(s, b), b))),
        parts_from(settled(s, b), b) == parts_from(s, b),
    decreases s.len(),
{
    if s.len() <= b {
        assert(s.take(s.len() as int) =~= s);
    } else {
        lemma_cut(s, b);
        let u = s.take(rest_end(s, b));
        if is_void(s.skip(cut(s, b))) {
            assert(body_start(u) == b) by {
                if b == 0 && u.len() > 0 {
                    assert(u[0] == s[0]);
                    if u[0] == '.' && u.len() == 1 {
                        assert(s[1] == '/');
                    }
                }
            }
            lemma_settled(u, b);
            let n = settled(u, b).len() as int;
            assert(u.take(n) =~= s.take(n));
        } else {
            assert(s.take(s.len() as int) =~= s);
        }
    }
}

proof fn lemma_join(d: Seq<char>, n: Seq<char>)
    requires
        n.len() > 0,
        !n.contains('/'),
        n != seq!['.'],
    ensures
        name_part(joined(d, n)) == if n == seq!['.', '.'] {
            None
        } else {
            Some(n)
        },
        parent_part(joined(d, n)) is Some,
        same_path(parent_part(joined(d, n))->0, d),
        settled(joined(d, n), body_start(joined(d, n))) == joined(d, n),
        body_start(joined(d, n)) < joined(d, n).len(),
        joined(d, n).skip(cut(joined(d, n), body_start(joined(d, n)))) == n,
{
    let s = joined(d, n);
    let b = body_start(d);
    assert(n[0] != '/') by {
        assert(n.contains(n[0]));
    }
    assert forall|i: int| 0 <= i < n.len() implies n[i] != '/' by {
        assert(n.contains(n[i]));
    }
    let k = s.len() - n.len();
    assert(s.skip(k) =~= n);
    assert(body_start(s) == b) by {
        if d.len() == 0 {
            assert(s =~= n);
            if n[0] == '.' && n.len() == 1 {
                assert(n =~= seq!['.']);
            }
        } else {
            assert(s[0] == d[0]);
            if d.len() == 1 && d[0] == '.' {
                assert(s[1] == '/');
            } else if d.len() > 1 {
                assert(s[1] == d[1]);
            }
        }
    }
    assert(k >= b);
    lemma_cut_is(s, b, k);
    assert(settled(s, b) == s) by {
        assert(!is_void(n));
    }
    let u = s.take(rest_end(s, b));
    lemma_settled(d, b);
    if k == b {
        assert(u =~= d);
    } else if d.len() == 0 || d.last() != '/' {
        assert(u =~= d);
    } else {
        lemma_cut_is(d, b, d.len() as int);
        assert(d.skip(d.len() as int) =~= Seq::empty());
        assert(u =~= d.take(d.len() - 1));
        assert(settled(d, b) == settled(u, b));
    }
}

/// A name put below a directory is the last component of the result, and the
/// directory is its parent.
pub proof fn law_join(d: Seq<char>, n: Seq<char>)
    requires
        plain_name(n),
    ensures
        name_part(joined(d, n)) == Some(n),
        parent_part(joined(d, n)) is Some,
        same_path(parent_part(joined(d, n))->0, d),
{
    lemma_join(d, n);
}

/// A path with a name is made of its parent and the name: the name is one component, and
/// put below the parent it is the path again.
pub proof fn law_split(s: Seq<char>)
    requires
        name_part(s) is Some,
    ensures
        parent_part(s) is Some,
        plain_name(name_part(s)->0),
        parts(s) == parts(parent_part(s)->0).push(name_part(s)->0),
        same_path(joined(parent_part(s)->0, name_part(s)->0), s),
{
    let b = body_start(s);
    lemma_settled(s, b);
    let t = settled(s, b);
    lemma_cut(t, b);
    let n = t.skip(cut(t, b));
    let u = t.take(rest_end(t, b));
    assert(!n.contains('/')) by {
        assert forall|i: int| 0 <= i < n.len() implies n[i] != '/' by {
            assert(n[i] == t[cut(t, b) + i]);
        }
    }
    assert(body_start(u) == b) by {
        if u.len() > 0 {
            assert(u[0] == t[0]);
            if u.len() > 1 {
                assert(u[1] == t[1]);
            }
        }
    }
    lemma_settled(u, b);
    let d = settled(u, b);
    assert(parts(s) == parts(d).push(n));
    lemma_join_parts(d, n);
}

/// The components of a name put below a directory are those of the directory and the
/// name.
pub proof fn lemma_join_parts(d: Seq<char>, n: Seq<char>)
    requires
        n.len() > 0,
        !n.contains('/'),
        n != seq!['.'],
    ensures
        parts(joined(d, n)) == parts(d).push(n),
{
    lemma_join(d, n);
    let s = joined(d, n);
    let b = body_start(s);
    lemma_cut(s, b);
    let u = s.take(rest_end(s, b));
    assert(body_start(u) == b) by {
        if u.len() > 0 {
            assert(u[0] == s[0]);
            if u.len() > 1 {
                assert(u[1] == s[1]);
            }
        }
    }
    lemma_settled(u, b);
    assert(parts(s) == parts_from(u, b).push(n));
    assert(parts(parent_part(s)->0) == parts_from(u, b));
}

/// A `/` at the end of a path makes no difference, nor does a `.` behind it.
pub proof fn law_void_end(s: Seq<char>)
    requires
        s.len() > 0,
    ensures
        same_path(s.push('/'), s),
        same_path(s.push('/').push('.'), s),
{
    let b = body_start(s);
    let t = s.push('/');
    let u = t.push('.');
    assert(t[0] == s[0] && u[0] == s[0]);
    if s.len() > 1 {
        assert(t[1] == s[1] && u[1] == s[1]);
    } else {
        assert(t[1] == '/' && u[1] == '/');
    }
    assert(body_start(t) == b && body_start(u) == b);
    assert(t[t.len() - 1] == '/');
    lemma_cut_is(t, b, t.len() as int);
    assert(t.take(t.len() - 1) =~= s);
    assert(t.skip(t.len() as int) =~= Seq::empty());
    assert(u[t.len() - 1] == '/');
    lemma_cut_is(u, b, t.len() as int);
    assert(u.take(t.len() - 1) =~= s);
    assert(u.skip(t.len() as int) =~= seq!['.']);
}

/// Where components come from: the empty path has none, `/` and a leading `.` are one by
/// themselves. None of these ends in a name, and only `.` has a parent.
pub proof fn law_roots()
    ensures
        parts(Seq::empty()).len() == 0,
        parts(seq!['/']) == seq![seq!['/']],
        parts(seq!['.']) == seq![seq!['.']],
        name_part(Seq::empty()) is None,
        name_part(seq!['/']) is None,
        name_part(seq!['.']) is None,
        parent_part(Seq::empty()) is None,
        parent_part(seq!['/']) is None,
        parent_part(seq!['.']) == Some(Seq::<char>::empty()),
{
}

/// `..` is a component like others, but no name.
pub proof fn law_join_up(d: Seq<char>)
    ensures
        parts(joined(d, seq!['.', '.'])) == parts(d).push(seq!['.', '.']),
        name_part(joined(d, seq!['.', '.'])) is None,
        parent_part(joined(d, seq!['.', '.'])) is Some,
        same_path(parent_part(joined(d, seq!['.', '.']))->0, d),
{
    let n = seq!['.', '.'];
    assert(n.len() == 2);
    if n == seq!['.'] {
        assert(seq!['.'].len() == 1);
    }
    lemma_join(d, n);
    lemma_join_parts(d, n);
}

/// Putting a path below another keeps it at the end, and below the other unless it is
/// absolute.
pub proof fn law_joined(a: Seq<char>, b: Seq<char>)
    ensures
        b.len() > 0 && b[0] == '/' ==> joined(a, b) == b,
        !(b.len() > 0 && b[0] == '/') ==> {
            let r = joined(a, b);
            &&& r.len() >= a.len() + b.len()
            &&& r.take(a.len() as int) == a
            &&& r.skip(r.len() - b.len()) == b
            &&& r.len() == a.len() + b.len() + if a.len() > 0 && a.last() != '/' {
                1int
            } else {
                0int
            }
            &&& r.len() > a.len() + b.len() ==> r[a.len() as int] == '/'
        },
{
    let r = joined(a, b);
    if !(b.len() > 0 && b[0] == '/') {
        assert(r.take(a.len() as int) =~= a);
        assert(r.skip(r.len() - b.len()) =~= b);
    }
}

// ---------------------------------------------------------------------------
// Computation
// ---------------------------------------------------------------------------
/// The number of characters before the components.
fn start_of(s: &[char]) -> (r: usize)
    ensures
        r == body_start(s@),
        r <= s@.len(),
{
    if s.len() > 0 && s[0] == '/' {
        1
    } else if s.len() > 0 && s[0] == '.' && (s.len() == 1 || s[1] == '/') {
        1
    } else {
        0
    }
}

/// Where the last component of the first `n` characters of `s` begins.
fn cut_of(s: &[char], b: usize, n: usize) -> (r: usize)
    requires
        b < n <= s@.len(),
    ensures
        r == cut(s@.take(n as int), b as int),
        b <= r <= n,
        rest_end(s@.take(n as int), b as int) == if r > b {
            r - 1
        } else {
            r as int
        },
{
    let mut k: usize = n;
    while k > b && s[k - 1] != '/'
        invariant
            b <= k <= n <= s@.len(),
            forall|i: int| k <= i < n ==> s@[i] != '/',
        decreases k,
    {
        k -= 1;
    }
    proof {
        lemma_cut_is(s@.take(n as int), b as int, k as int);
    }
    k
}

/// Where the text before a component that begins at `k` ends.
fn rest_of(b: usize, k: usize) -> (r: usize)
    requires
        b <= k,
    ensures
        r == if k > b {
            k - 1
        } else {
            k as int
        },
{
    if k > b {
        k - 1
    } else {
        k
    }
}

/// The length of the first `n` characters of `s` without the components at the end
/// that count for nothing.
fn settle(s: &[char], b: usize, n: usize) -> (r: usize)
    requires
        n <= s@.len(),
    ensures
        r <= n,
        s@.take(r as int) == settled(s@.take(n as int), b as int),
{
    let mut m: usize = n;
    while m > b
        invariant
            m <= n <= s@.len(),
            settled(s@.take(m as int), b as int) == settled(s@.take(n as int), b as int),
        ensures
            m <= n,
            s@.take(m as int) == settled(s@.take(n as int), b as int),
        decreases m,
    {
        let k = cut_of(s, b, m);
        let ghost t = s@.take(m as int);
        let ghost c = t.skip(k as int);
        proof {
            lemma_cut(t, b as int);
            if c.len() == 1 {
                assert(c[0] == s@[k as int]);
                assert(c == seq!['.'] <==> c[0] == '.') by {
                    if c[0] == '.' {
                        assert(c =~= seq!['.']);
                    }
                }
            }
        }
        if m - k > 1 || (m - k == 1 && s[k] != '.') {
            break;
        }
        let e = rest_of(b, k);
        assert(t.take(e as int) =~= s@.take(e as int));
        m = e;
    }
    m
}

/// The name at the end of the path, where it ends in one.
pub fn file_name(path: &str) -> (r: Option<String>)
    ensures
        opt_view(r) == name_part(path@),
{
    let s = chars_of(path);
    let b = start_of(&s);
    assert(s@.take(s@.len() as int) =~= s@);
    let n = settle(&s, b, s.len());
    if n <= b {
        return None;
    }
    let k = cut_of(&s, b, n);
    let c = string_of_range(&s, k, n);
    proof {
        assert(c@ =~= s@.take(n as int).skip(k as int));
        if c@.len() == 2 && c@[0] == '.' && c@[1] == '.' {
            assert(c@ =~= seq!['.', '.']);
        }
    }
    if n - k == 2 && s[k] == '.' && s[k + 1] == '.' {
        None
    } else {
        Some(c)
    }
}

/// The path without its last component, where there is one besides a leading `/`.
pub fn parent(path: &str) -> (r: Option<String>)
    ensures
        opt_view(r) == parent_part(path@),
{
    let s = chars_of(path);
    let b = start_of(&s);
    assert(s@.take(s@.len() as int) =~= s@);
    let n = settle(&s, b, s.len());
    if n > b {
        let k = cut_of(&s, b, n);
        let e = rest_of(b, k);
        assert(s@.take(n as int).take(e as int) =~= s@.take(e as int));
        let m = settle(&s, b, e);
        let r = string_of_range(&s, 0, m);
        assert(r@ =~= s@.take(m as int));
        Some(r)
    } else if b == 1 && s[0] == '.' {
        let r = string_of_range(&s, 0, 0);
        assert(r@ =~= Seq::empty());
        Some(r)
    } else {
        None
    }
}

/// `b` put below `a`. An absolute `b` stands alone.
pub fn join(a: &str, b: &str) -> (r: String)
    ensures
        r@ == joined(a@, b@),
{
    let x = chars_of(a);
    let y = chars_of(b);
    if y.len() > 0 && y[0] == '/' {
        return copy_of(b);
    }
    let mut out = copy_of(a);
    if x.len() > 0 && x[x.len() - 1] != '/' {
        out.append("/");
        proof {
            reveal_strlit("/");
            assert(out@ =~= a@.push('/'));
        }
    }
    out.append(b);
    out
}

/// The components of the path.
fn parts_of(s: &[char]) -> (r: Vec<String>)
    ensures
        views(r@) == parts(s@),
{
    let b = start_of(s);
    let mut back: Vec<String> = Vec::new();
    let mut n: usize = s.len();
    assert(s@.take(n as int) =~= s@);
    assert(views(back@.reverse()) =~= Seq::<Seq<char>>::empty());
    assert(parts(s@) =~= parts_from(s@.take(n as int), b as int) + views(
        back@.reverse(),
    ));
    while n > b
        invariant
            b <= n <= s@.len(),
            b == body_start(s@),
            parts(s@) == parts_from(s@.take(n as int), b as int) + views(
                back@.reverse(),
            ),
        decreases n,
    {
        let k = cut_of(s, b, n);
        let e = rest_of(b, k);
        let ghost t = s@.take(n as int);
        let ghost before = views(back@.reverse());
        let c = string_of_range(s, k, n);
        proof {
            lemma_cut(t, b as int);
            assert(c@ =~= t.skip(k as int));
            assert(t.take(e as int) =~= s@.take(e as int));
            if c@.len() == 1 {
                assert(c@[0] == s@[k as int]);
                if c@[0] == '.' {
                    assert(c@ =~= seq!['.']);
                }
            }
        }
        if n - k > 1 || (n - k == 1 && s[k] != '.') {
            assert(!is_void(c@));
            back.push(c);
            proof {
                assert(views(back@.reverse()) =~= seq![c@] + before);
                assert(parts(s@) =~= parts_from(s@.take(e as int), b as int)
                    + views(back@.reverse()));
            }
        }
        n = e;
    }
    let mut out: Vec<String> = Vec::new();
    if b == 1 {
        let c = string_of_range(s, 0, 1);
        assert(c@ =~= s@.take(1));
        out.push(c);
    }
    assert(views(out@) =~= parts_from(s@.take(n as int), b as int));
    let ghost head = views(out@);
    let mut i: usize = back.len();
    assert(views(out@) =~= head + views(back@.reverse()).take(0));
    while i > 0
        invariant
            i <= back@.len(),
            views(out@) == head + views(back@.reverse()).take(
                back@.len() - i,
            ),
        decreases i,
    {
        i -= 1;
        let ghost before = views(out@);
        out.push(copy_of(back[i].as_str()));
        proof {
            let all = views(back@.reverse());
            assert(views(out@) =~= before.push(back@[i as int]@));
            assert(all[back@.len() - i - 1] == back@[i as int]@);
            assert(all.take(back@.len() - i) =~= all.take(back@.len() - i - 1).push(
                back@[i as int]@,
            ));
            assert(views(out@) =~= head + all.take(back@.len() - i));
        }
    }
    assert(views(back@.reverse()).take(back@.len() as int)
        =~= views(back@.reverse()));
    out
}

/// The components of the path.
pub fn path_parts(path: &str) -> (r: Vec<String>)
    ensures
        views(r@) == parts(path@),
{
    parts_of(&chars_of(path))
}

/// Whether the components are the same.
pub fn same_parts(x: &Vec<String>, y: &Vec<String>) -> (r: bool)
    ensures
        r == (views(x@) == views(y@)),
{
    let ghost p = views(x@);
    let ghost q = views(y@);
    if x.len() != y.len() {
        assert(p.len() != q.len());
        return false;
    }
    let mut i: usize = 0;
    while i < x.len()
        invariant
            p == views(x@),
            q == views(y@),
            x@.len() == y@.len(),
            i <= x@.len(),
            forall|j: int| 0 <= j < i ==> p[j] == q[j],
        decreases x@.len() - i,
    {
        if x[i] != y[i] {
            assert(p[i as int] != q[i as int]);
            return false;
        }
        i += 1;
    }
    assert(p =~= q);
    true
}

/// Whether the paths have the same components.
pub fn path_eq(a: &str, b: &str) -> (r: bool)
    ensures
        r == same_path(a@, b@),
{
    same_parts(&path_parts(a), &path_parts(b))
}

/// Whether two paths of which each may be absent are the same.
pub fn opt_path_eq(a: &Option<String>, b: &Option<String>) -> (r: bool)
    ensures
        r == same_opt_path(opt_view(*a), opt_view(*b)),
{
    match (a, b) {
        (Some(x), Some(y)) => path_eq(x.as_str(), y.as_str()),
        (None, None) => true,
        _ => false,
    }
}

} // verus!
