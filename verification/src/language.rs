//! Tokens in file names: languages, and words between boundaries.

use vstd::prelude::*;

use crate::normalize::str_views;
use crate::pattern::opt_view;
use crate::text::{
    ascii_digit, ascii_letter, chars_of, contains, has_part, is_at, is_digit, is_letter, lower,
    lower_char, occurs_at, to_lower,
};

verus! {

/// The tokens by which a language or a release group is recognized, in the order in
/// which they are tried.
pub open spec fn language_words() -> Seq<Seq<char>> {
    seq![
        "chs"@, "cht"@, "sc"@, "tc"@, "jp"@, "jpn"@, "eng"@, "en"@, "gb"@, "tw"@, "简体"@, "繁體"@,
        "简"@, "繁"@, "jpsc"@, "jptc"@,
    ]
}

/// The tokens by which a language or a release group is recognized.
pub fn language_tokens() -> (r: Vec<&'static str>)
    ensures
        str_views(r@) == language_words(),
{
    let r = vec![
        "chs", "cht", "sc", "tc", "jp", "jpn", "eng", "en", "gb", "tw", "简体", "繁體", "简", "繁",
        "jpsc", "jptc",
    ];
    assert(str_views(r@) =~= language_words());
    r
}

/// The first of `words` that stands in `low`, each in lower case.
pub open spec fn first_word_in(low: Seq<char>, words: Seq<Seq<char>>) -> Option<Seq<char>>
    decreases words.len(),
{
    if words.len() == 0 {
        None
    } else if has_part(low, lower(words[0])) {
        Some(lower(words[0]))
    } else {
        first_word_in(low, words.drop_first())
    }
}

/// The first language token that stands in `stem`, in lower case. ASCII case does not
/// matter.
pub fn detect_language_token(stem: &str) -> (r: Option<String>)
    ensures
        opt_view(r) == first_word_in(lower(stem@), language_words()),
{
    let low = to_lower(stem);
    let words = language_tokens();
    let ghost all = language_words();
    let mut i: usize = 0;
    assert(all.skip(0) =~= all);
    while i < words.len()
        invariant
            low@ == lower(stem@),
            all == str_views(words@),
            i <= words@.len(),
            first_word_in(low@, language_words()) == first_word_in(low@, all.skip(i as int)),
        decreases words@.len() - i,
    {
        proof {
            assert(all.skip(i as int)[0] == words@[i as int]@);
            assert(all.skip(i as int).drop_first() =~= all.skip(i + 1));
        }
        let w = to_lower(words[i]);
        if contains(low.as_str(), w.as_str()) {
            return Some(w);
        }
        i += 1;
    }
    None
}

/// What is detected is a language token that stands in the stem, and none that is tried
/// before it stands there. Nothing is detected only where none of them does.
pub proof fn law_language_token(stem: Seq<char>)
    ensures
        ({
            let words = language_words();
            match first_word_in(lower(stem), words) {
                Some(w) => exists|i: int|
                    0 <= i < words.len() && w == lower(#[trigger] words[i]) && has_part(
                        lower(stem),
                        w,
                    ) && forall|j: int|
                        0 <= j < i ==> !has_part(lower(stem), lower(#[trigger] words[j])),
                None => forall|j: int|
                    0 <= j < words.len() ==> !has_part(lower(stem), lower(#[trigger] words[j])),
            }
        }),
{
    lemma_first_word(lower(stem), language_words());
}

proof fn lemma_first_word(low: Seq<char>, words: Seq<Seq<char>>)
    ensures
        match first_word_in(low, words) {
            Some(w) => exists|i: int|
                0 <= i < words.len() && w == lower(#[trigger] words[i]) && has_part(low, w)
                    && forall|j: int| 0 <= j < i ==> !has_part(low, lower(#[trigger] words[j])),
            None => forall|j: int|
                0 <= j < words.len() ==> !has_part(low, lower(#[trigger] words[j])),
        },
    decreases words.len(),
{
    if words.len() > 0 {
        if has_part(low, lower(words[0])) {
            assert(first_word_in(low, words) == Some(lower(words[0])));
        } else {
            let t = words.drop_first();
            lemma_first_word(low, t);
            match first_word_in(low, t) {
                Some(w) => {
                    let i = choose|i: int|
                        0 <= i < t.len() && w == lower(#[trigger] t[i]) && has_part(low, w)
                            && forall|j: int|
                            0 <= j < i ==> !has_part(low, lower(#[trigger] t[j]));
                    assert(w == lower(words[i + 1]));
                    assert forall|j: int| 0 <= j < i + 1 implies !has_part(
                        low,
                        lower(#[trigger] words[j]),
                    ) by {
                        if j > 0 {
                            assert(words[j] == t[j - 1]);
                        }
                    }
                },
                None => {
                    assert forall|j: int| 0 <= j < words.len() implies !has_part(
                        low,
                        lower(#[trigger] words[j]),
                    ) by {
                        if j > 0 {
                            assert(words[j] == t[j - 1]);
                        }
                    }
                },
            }
        }
    }
}

/// The language tokens, in the order in which they are tried.
pub proof fn law_language_words(word: Seq<char>)
    ensures
        language_words().len() == 16,
        language_words()[0] == "chs"@ && language_words()[1] == "cht"@,
        language_words()[2] == "sc"@ && language_words()[3] == "tc"@,
        language_words()[4] == "jp"@ && language_words()[5] == "jpn"@,
        language_words()[6] == "eng"@ && language_words()[7] == "en"@,
        language_words()[8] == "gb"@ && language_words()[9] == "tw"@,
        language_words()[10] == "简体"@ && language_words()[11] == "繁體"@,
        language_words()[12] == "简"@ && language_words()[13] == "繁"@,
        language_words()[14] == "jpsc"@ && language_words()[15] == "jptc"@,
        language_words().contains(word) <==> (word == "chs"@ || word == "cht"@ || word == "sc"@
            || word == "tc"@ || word == "jp"@ || word == "jpn"@ || word == "eng"@ || word == "en"@
            || word == "gb"@ || word == "tw"@ || word == "简体"@ || word == "繁體"@ || word == "简"@
            || word == "繁"@ || word == "jpsc"@ || word == "jptc"@),
{
    let w = language_words();
    assert(w[0] == "chs"@ && w[1] == "cht"@ && w[2] == "sc"@ && w[3] == "tc"@ && w[4] == "jp"@);
    assert(w[5] == "jpn"@ && w[6] == "eng"@ && w[7] == "en"@ && w[8] == "gb"@ && w[9] == "tw"@);
    assert(w[10] == "简体"@ && w[11] == "繁體"@ && w[12] == "简"@ && w[13] == "繁"@);
    assert(w[14] == "jpsc"@ && w[15] == "jptc"@);
}

// ---------------------------------------------------------------------------
// Words between boundaries
// ---------------------------------------------------------------------------
/// An ASCII letter or digit.
pub open spec fn ascii_word(c: char) -> bool {
    ascii_digit(c) || ascii_letter(c)
}

/// `t` stands in `s` at `i`, with no ASCII letter or digit on either side of it.
pub open spec fn word_at(s: Seq<char>, t: Seq<char>, i: int) -> bool {
    &&& t.len() > 0
    &&& occurs_at(s, t, i)
    &&& i == 0 || !ascii_word(s[i - 1])
    &&& i + t.len() == s.len() || !ascii_word(s[i + t.len()])
}

/// The first place from `i` on at which `t` stands in `s` between boundaries.
pub open spec fn word_from(s: Seq<char>, t: Seq<char>, i: int) -> Option<int>
    decreases s.len() - i,
{
    if i >= s.len() {
        None
    } else if word_at(s, t, i) {
        Some(i)
    } else {
        word_from(s, t, i + 1)
    }
}

/// `s` as it is compared: in lower case, unless case matters.
pub open spec fn cased(s: Seq<char>, case_sensitive: bool) -> Seq<char> {
    if case_sensitive {
        s
    } else {
        lower(s)
    }
}

/// The first place at which `token` stands in `stem` between boundaries.
pub open spec fn word_place(stem: Seq<char>, token: Seq<char>, case_sensitive: bool) -> Option<int> {
    word_from(cased(stem, case_sensitive), cased(token, case_sensitive), 0)
}

/// What `word_place` finds is the first place of the token between boundaries.
pub proof fn law_word_place(stem: Seq<char>, token: Seq<char>, case_sensitive: bool)
    ensures
        ({
            let s = cased(stem, case_sensitive);
            let t = cased(token, case_sensitive);
            match word_place(stem, token, case_sensitive) {
                Some(i) => word_at(s, t, i) && forall|j: int| 0 <= j < i ==> !word_at(s, t, j),
                None => forall|j: int| !word_at(s, t, j),
            }
        }),
{
    let s = cased(stem, case_sensitive);
    let t = cased(token, case_sensitive);
    lemma_word_from(s, t, 0);
    if word_place(stem, token, case_sensitive) is None {
        assert forall|j: int| !word_at(s, t, j) by {
            if word_at(s, t, j) {
                assert(0 <= j < s.len());
            }
        }
    }
}

/// A token is found where its characters stand in the stem, ASCII case aside unless it
/// matters, with no ASCII letter or digit directly before or behind them.
pub proof fn law_word_at(stem: Seq<char>, token: Seq<char>, case_sensitive: bool, i: int)
    ensures
        word_place(stem, token, case_sensitive) == Some(i) ==> {
            &&& 0 < token.len() && 0 <= i && i + token.len() <= stem.len()
            &&& forall|k: int|
                #![trigger token[k]]
                0 <= k < token.len() ==> if case_sensitive {
                    stem[i + k] == token[k]
                } else {
                    lower_char(stem[i + k]) == lower_char(token[k])
                }
            &&& i > 0 ==> !('0' <= stem[i - 1] <= '9' || 'a' <= stem[i - 1] <= 'z' || 'A' <= stem[i
                - 1] <= 'Z')
            &&& i + token.len() < stem.len() ==> {
                let c = stem[i + token.len()];
                !('0' <= c <= '9' || 'a' <= c <= 'z' || 'A' <= c <= 'Z')
            }
        },
{
    law_word_place(stem, token, case_sensitive);
    let s = cased(stem, case_sensitive);
    let t = cased(token, case_sensitive);
    if word_place(stem, token, case_sensitive) == Some(i) {
        assert forall|k: int| #![trigger token[k]] 0 <= k < token.len() implies if case_sensitive {
            stem[i + k] == token[k]
        } else {
            lower_char(stem[i + k]) == lower_char(token[k])
        } by {
            assert(s.subrange(i, i + t.len())[k] == t[k]);
        }
    }
}

/// Wherever a token stands between boundaries, it is found, there or before.
pub proof fn law_word_found(stem: Seq<char>, token: Seq<char>, case_sensitive: bool, i: int)
    requires
        token.len() > 0,
        0 <= i,
        i + token.len() <= stem.len(),
        forall|k: int|
            #![trigger token[k]]
            0 <= k < token.len() ==> if case_sensitive {
                stem[i + k] == token[k]
            } else {
                lower_char(stem[i + k]) == lower_char(token[k])
            },
        i > 0 ==> !('0' <= stem[i - 1] <= '9' || 'a' <= stem[i - 1] <= 'z' || 'A' <= stem[i - 1]
            <= 'Z'),
        i + token.len() < stem.len() ==> {
            let c = stem[i + token.len()];
            !('0' <= c <= '9' || 'a' <= c <= 'z' || 'A' <= c <= 'Z')
        },
    ensures
        word_place(stem, token, case_sensitive) matches Some(j) && 0 <= j <= i,
{
    law_word_place(stem, token, case_sensitive);
    let s = cased(stem, case_sensitive);
    let t = cased(token, case_sensitive);
    assert(s.subrange(i, i + t.len()) =~= t) by {
        assert forall|k: int| 0 <= k < t.len() implies s[i + k] == t[k] by {
            assert(token[k] == token[k]);
        }
    }
    assert(word_at(s, t, i));
}

proof fn lemma_word_from(s: Seq<char>, t: Seq<char>, i: int)
    ensures
        match word_from(s, t, i) {
            Some(k) => i <= k < s.len() && word_at(s, t, k) && forall|j: int|
                i <= j < k ==> !word_at(s, t, j),
            None => forall|j: int| i <= j < s.len() ==> !word_at(s, t, j),
        },
    decreases s.len() - i,
{
    if i < s.len() && !word_at(s, t, i) {
        lemma_word_from(s, t, i + 1);
    }
}

/// Whether `c` is an ASCII letter or digit.
fn is_word(c: char) -> (r: bool)
    ensures
        r == ascii_word(c),
{
    is_digit(c) || is_letter(c)
}

/// The first place, in characters, at which `token` stands in `stem` with no ASCII
/// letter or digit on either side.
pub fn find_boundary_token(stem: &str, token: &str, case_sensitive: bool) -> (r: Option<usize>)
    ensures
        match r {
            Some(i) => word_place(stem@, token@, case_sensitive) == Some(i as int),
            None => word_place(stem@, token@, case_sensitive) is None,
        },
{
    let s = if case_sensitive {
        chars_of(stem)
    } else {
        chars_of(to_lower(stem).as_str())
    };
    let t = if case_sensitive {
        chars_of(token)
    } else {
        chars_of(to_lower(token).as_str())
    };
    let mut i: usize = 0;
    while i < s.len()
        invariant
            s@ == cased(stem@, case_sensitive),
            t@ == cased(token@, case_sensitive),
            i <= s@.len(),
            word_place(stem@, token@, case_sensitive) == word_from(s@, t@, i as int),
        decreases s@.len() - i,
    {
        if t.len() > 0 && is_at(&s, &t, i) && (i == 0 || !is_word(s[i - 1])) {
            let end = i + t.len();
            if end == s.len() || !is_word(s[end]) {
                return Some(i);
            }
        }
        i += 1;
    }
    None
}

} // verus!
