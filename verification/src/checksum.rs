//! Checksums: SHA-256 digests in hexadecimal.

use sha2::{Digest, Sha256};
use vstd::prelude::*;

use crate::pattern::opt_view;
use crate::text::{chars_of, copy_of, same_str, string_of, string_of_range};

verus! {

/// The hasher of the `sha2` crate.
#[verifier::external_type_specification]
#[verifier::external_body]
pub struct ExSha256(sha2::Sha256);

/// The bytes that `h` has been fed.
pub uninterp spec fn hasher_input(h: sha2::Sha256) -> Seq<u8>;

/// The SHA-256 digest of `bytes`, as `sha2` computes it.
pub uninterp spec fn sha256(bytes: Seq<u8>) -> Seq<u8>;

/// Calls `Sha256::new`. The hasher has been fed nothing.
#[verifier::external_body]
fn new_hasher() -> (r: Sha256)
    ensures
        hasher_input(r) == Seq::<u8>::empty(),
{
    Sha256::new()
}

/// Calls `Digest::update`, which feeds the hasher more bytes.
#[verifier::external_body]
fn feed(hasher: &mut Sha256, bytes: &[u8])
    ensures
        hasher_input(*final(hasher)) == hasher_input(*old(hasher)) + bytes@,
{
    hasher.update(bytes);
}

/// Calls `Digest::finalize`. The digest depends on the bytes that the hasher has been
/// fed alone, and has 32 bytes.
#[verifier::external_body]
fn digest_of(hasher: Sha256) -> (r: Vec<u8>)
    ensures
        r@ == sha256(hasher_input(hasher)),
        r@.len() == 32,
{
    hasher.finalize().to_vec()
}

/// The hexadecimal digit of `n`, in lower case.
pub open spec fn hex_digit(n: int) -> char {
    if n < 10 {
        ((n + 48) as u8) as char
    } else {
        ((n + 87) as u8) as char
    }
}

/// The bytes in hexadecimal, two digits each, in lower case.
pub open spec fn hex(bytes: Seq<u8>) -> Seq<char>
    decreases bytes.len(),
{
    if bytes.len() == 0 {
        Seq::empty()
    } else {
        hex(bytes.drop_last()).push(hex_digit(bytes.last() as int / 16)).push(
            hex_digit(bytes.last() as int % 16),
        )
    }
}

proof fn lemma_hex_len(bytes: Seq<u8>)
    ensures
        hex(bytes).len() == 2 * bytes.len(),
    decreases bytes.len(),
{
    if bytes.len() > 0 {
        lemma_hex_len(bytes.drop_last());
    }
}

/// Different bytes are different in hexadecimal, and each byte takes two digits.
pub proof fn law_hex_injective(a: Seq<u8>, b: Seq<u8>)
    ensures
        hex(a).len() == 2 * a.len(),
        hex(a) == hex(b) ==> a == b,
    decreases a.len(),
{
    lemma_hex_len(a);
    lemma_hex_len(b);
    if hex(a) == hex(b) {
        if a.len() == 0 {
            assert(a =~= b);
        } else {
            let n = hex(a).len();
            let x = a.drop_last();
            let y = b.drop_last();
            lemma_hex_len(x);
            lemma_hex_len(y);
            assert(hex(a).drop_last().drop_last() =~= hex(x));
            assert(hex(b).drop_last().drop_last() =~= hex(y));
            law_hex_injective(x, y);
            assert(hex(a)[n - 1] == hex_digit(a.last() as int % 16));
            assert(hex(b)[n - 1] == hex_digit(b.last() as int % 16));
            assert(hex(a)[n - 2] == hex_digit(a.last() as int / 16));
            assert(hex(b)[n - 2] == hex_digit(b.last() as int / 16));
            lemma_hex_digit(a.last() as int % 16, b.last() as int % 16);
            lemma_hex_digit(a.last() as int / 16, b.last() as int / 16);
            assert(a =~= x.push(a.last()));
            assert(b =~= y.push(b.last()));
        }
    }
}

proof fn lemma_hex_digit(m: int, n: int)
    requires
        0 <= m < 16,
        0 <= n < 16,
        hex_digit(m) == hex_digit(n),
    ensures
        m == n,
{
}

/// The hexadecimal digit of `n`.
fn hex_digit_of(n: u8) -> (r: char)
    requires
        n < 16,
    ensures
        r == hex_digit(n as int),
{
    if n < 10 {
        (n + 48) as char
    } else {
        (n + 87) as char
    }
}

/// The bytes in hexadecimal, two digits each, in lower case.
pub fn to_hex(bytes: &Vec<u8>) -> (r: String)
    ensures
        r@ == hex(bytes@),
{
    let mut out: Vec<char> = Vec::new();
    let mut i: usize = 0;
    while i < bytes.len()
        invariant
            i <= bytes@.len(),
            out@ == hex(bytes@.take(i as int)),
        decreases bytes@.len() - i,
    {
        assert(bytes@.take(i + 1).drop_last() =~= bytes@.take(i as int));
        out.push(hex_digit_of(bytes[i] / 16));
        out.push(hex_digit_of(bytes[i] % 16));
        i += 1;
    }
    assert(bytes@.take(i as int) =~= bytes@);
    string_of(&out)
}

/// The checksum of a file that is read piece by piece.
pub struct Checksum {
    hasher: Sha256,
}

impl View for Checksum {
    type V = Seq<u8>;

    closed spec fn view(&self) -> Seq<u8> {
        hasher_input(self.hasher)
    }
}

impl Checksum {
    /// The checksum of a file of which nothing has been read.
    pub fn new() -> (r: Self)
        ensures
            r@ == Seq::<u8>::empty(),
    {
        Checksum { hasher: new_hasher() }
    }

    /// Takes in the next bytes.
    pub fn update(&mut self, bytes: &[u8])
        ensures
            final(self)@ == old(self)@ + bytes@,
    {
        feed(&mut self.hasher, bytes);
    }

    /// The checksum of what has been read: 64 hexadecimal digits in lower case.
    pub fn finish(self) -> (r: String)
        ensures
            r@ == hex(sha256(self@)),
            r@.len() == 64,
    {
        let d = digest_of(self.hasher);
        proof {
            lemma_hex_len(d@);
        }
        to_hex(&d)
    }
}

/// The checksum of `bytes`.
pub fn sha256_hex(bytes: &[u8]) -> (r: String)
    ensures
        r@ == hex(sha256(bytes@)),
        r@.len() == 64,
{
    let mut c = Checksum::new();
    c.update(bytes);
    assert(Seq::<u8>::empty() + bytes@ =~= bytes@);
    c.finish()
}

/// The first eight characters of a checksum.
pub open spec fn short_form(checksum: Seq<char>) -> Seq<char> {
    if checksum.len() > 8 {
        checksum.take(8)
    } else {
        checksum
    }
}

/// The first eight characters of a checksum, by which it is shown.
pub fn short_checksum(checksum: &str) -> (r: String)
    ensures
        r@ == short_form(checksum@),
{
    let c = chars_of(checksum);
    let n: usize = if c.len() > 8 {
        8
    } else {
        c.len()
    };
    let r = string_of_range(&c, 0, n);
    assert(r@ =~= short_form(checksum@));
    r
}

// ---------------------------------------------------------------------------
// Checksums that are known
// ---------------------------------------------------------------------------
/// A file whose checksum is known, as it was when it was read.
#[derive(Debug)]
struct Seen {
    path: String,
    len: u64,
    modified: u128,
    checksum: String,
}

/// What is known of a file: its length, when it was changed, and its checksum.
pub struct SeenModel {
    pub len: u64,
    pub modified: u128,
    pub checksum: Seq<char>,
}

impl Seen {
    spec fn model(self) -> SeenModel {
        SeenModel { len: self.len, modified: self.modified, checksum: self.checksum@ }
    }
}

spec fn seen_at(entries: Seq<Seen>, path: Seq<char>) -> Option<SeenModel>
    decreases entries.len(),
{
    if entries.len() == 0 {
        None
    } else if entries.last().path@ == path {
        Some(entries.last().model())
    } else {
        seen_at(entries.drop_last(), path)
    }
}

/// Checksums by path, so that a file that has not changed is read once.
#[derive(Debug)]
pub struct ChecksumCache {
    entries: Vec<Seen>,
}

impl ChecksumCache {
    /// What is known of the file at `path`.
    pub closed spec fn seen(&self, path: Seq<char>) -> Option<SeenModel> {
        seen_at(self.entries@, path)
    }

    /// The checksum of the file at `path`, where it is known and the file has not changed.
    pub open spec fn known(&self, path: Seq<char>, len: u64, modified: u128) -> Option<Seq<char>> {
        match self.seen(path) {
            Some(s) => if s.len == len && s.modified == modified {
                Some(s.checksum)
            } else {
                None
            },
            None => None,
        }
    }

    /// A cache that knows nothing.
    pub fn new() -> (r: Self)
        ensures
            forall|path: Seq<char>| #[trigger] r.seen(path) is None,
    {
        ChecksumCache { entries: Vec::new() }
    }

    /// The position of what is known of `path`.
    fn position(&self, path: &str) -> (r: Option<usize>)
        ensures
            match r {
                Some(i) => {
                    &&& i < self.entries@.len()
                    &&& self.entries@[i as int].path@ == path@
                    &&& forall|j: int| i < j < self.entries@.len() ==> (#[trigger]
                    self.entries@[j]).path@ != path@
                    &&& self.seen(path@) == Some(self.entries@[i as int].model())
                },
                None => self.seen(path@) is None,
            },
    {
        let mut i: usize = self.entries.len();
        assert(self.entries@.take(i as int) =~= self.entries@);
        while i > 0
            invariant
                i <= self.entries@.len(),
                forall|j: int| i <= j < self.entries@.len() ==> (#[trigger] self.entries@[j]).path@
                    != path@,
                self.seen(path@) == seen_at(self.entries@.take(i as int), path@),
            decreases i,
        {
            proof {
                assert(self.entries@.take(i as int).drop_last() =~= self.entries@.take(i - 1));
                assert(self.entries@.take(i as int).last() == self.entries@[i - 1]);
            }
            if same_str(self.entries[i - 1].path.as_str(), path) {
                return Some(i - 1);
            }
            i -= 1;
        }
        None
    }

    /// The checksum of the file at `path`, where it is known and the file has not changed.
    pub fn lookup(&self, path: &str, len: u64, modified: u128) -> (r: Option<String>)
        ensures
            opt_view(r) == self.known(path@, len, modified),
    {
        match self.position(path) {
            Some(i) => {
                if self.entries[i].len == len && self.entries[i].modified == modified {
                    Some(copy_of(self.entries[i].checksum.as_str()))
                } else {
                    None
                }
            },
            None => None,
        }
    }

    /// Takes note of the checksum of the file at `path`.
    pub fn store(&mut self, path: &str, len: u64, modified: u128, checksum: &str)
        ensures
            final(self).seen(path@) == Some(
                SeenModel { len, modified, checksum: checksum@ },
            ),
            forall|other: Seq<char>|
                other != path@ ==> #[trigger] final(self).seen(other) == old(self).seen(other),
    {
        let ghost before = self.entries@;
        let entry = Seen { path: copy_of(path), len, modified, checksum: copy_of(checksum) };
        match self.position(path) {
            Some(i) => {
                proof {
                    lemma_seen_update(before, i as int, entry);
                }
                self.entries.set(i, entry);
            },
            None => {
                self.entries.push(entry);
                assert(self.entries@.drop_last() =~= before);
            },
        }
    }
}

proof fn lemma_seen_update(entries: Seq<Seen>, i: int, e: Seen)
    requires
        0 <= i < entries.len(),
        entries[i].path@ == e.path@,
        forall|j: int| i < j < entries.len() ==> (#[trigger] entries[j]).path@ != e.path@,
    ensures
        seen_at(entries.update(i, e), e.path@) == Some(e.model()),
        forall|other: Seq<char>|
            other != e.path@ ==> #[trigger] seen_at(entries.update(i, e), other) == seen_at(
                entries,
                other,
            ),
    decreases entries.len(),
{
    let new = entries.update(i, e);
    if i == entries.len() - 1 {
        assert(new.drop_last() =~= entries.drop_last());
    } else {
        assert(new.drop_last() =~= entries.drop_last().update(i, e));
        assert(new.last() == entries.last());
        lemma_seen_update(entries.drop_last(), i, e);
        assert forall|other: Seq<char>| other != e.path@ implies #[trigger] seen_at(new, other)
            == seen_at(entries, other) by {
            assert(seen_at(entries.drop_last().update(i, e), other) == seen_at(
                entries.drop_last(),
                other,
            ));
        }
    }
}

/// Each byte is written as its upper and its lower half, in the digits from `0` to `9` and
/// from `a` to `f`.
pub proof fn law_hex_digits(bytes: Seq<u8>, b: u8)
    ensures
        hex(Seq::empty()).len() == 0,
        ({
            let r = hex(bytes.push(b));
            let hi = b as int / 16;
            let lo = b as int % 16;
            &&& r.len() == hex(bytes).len() + 2
            &&& r.take(hex(bytes).len() as int) == hex(bytes)
            &&& r[r.len() - 2] as int == if hi < 10 {
                '0' as int + hi
            } else {
                'a' as int + hi - 10
            }
            &&& r.last() as int == if lo < 10 {
                '0' as int + lo
            } else {
                'a' as int + lo - 10
            }
        }),
{
    assert(bytes.push(b).drop_last() =~= bytes);
    let r = hex(bytes.push(b));
    assert(r.take(hex(bytes).len() as int) =~= hex(bytes));
}

/// A checksum is shown by its first eight characters, or all where it has no more.
pub proof fn law_short_form(checksum: Seq<char>)
    ensures
        short_form(checksum).len() == if checksum.len() < 8 {
            checksum.len()
        } else {
            8
        },
        forall|i: int|
            0 <= i < short_form(checksum).len() ==> #[trigger] short_form(checksum)[i]
                == checksum[i],
{
}

/// What a cache knows of a file is answered only while its length and its time are those
/// that were stored.
pub proof fn law_cache_answers(
    cache: ChecksumCache,
    path: Seq<char>,
    len: u64,
    modified: u128,
)
    ensures
        cache.known(path, len, modified) is Some <==> (cache.seen(path) matches Some(s) && s.len
            == len && s.modified == modified),
        cache.known(path, len, modified) matches Some(c) ==> c == cache.seen(path)->0.checksum,
{
}

} // verus!
