//! How videos and subtitles are lined up: which slots are compared and which of them win.

use vstd::prelude::*;

use crate::cross::{
    aligned, beats, candidate_for, candidates, candidates_among, column, cross_keys, diversity,
    fields_in, flat, keys_at_slot, law_candidates_ranked, law_top_slot, law_winner, matches_of,
    priority, ranks, score_for, scores_for, slots_in, slots_of, token_rows, top_slot, winner,
    CandidateModel, ScoreModel, TokenModel,
};
use crate::extract::{byte_len, comparables, raw_keys};
use crate::fields::{fields_of, FieldKind, FieldModel};
use crate::key::KeyModel;
use crate::normalize::key_of;
use crate::sorting::{count_of, distinct, law_distinct, lemma_sorted_multiset};
use crate::text::lex_le;

verus! {

// ---------------------------------------------------------------------------
// Slots
// ---------------------------------------------------------------------------
/// What stands at a slot are the tokens of the stems that are long enough, stem by stem.
pub proof fn law_column(rows: Seq<Seq<TokenModel>>, row: Seq<TokenModel>, slot: int)
    requires
        slot >= 0,
    ensures
        column(Seq::empty(), slot).len() == 0,
        column(rows.push(row), slot) == if slot < row.len() {
            column(rows, slot).push(row[slot])
        } else {
            column(rows, slot)
        },
{
    assert(rows.push(row).drop_last() =~= rows);
}

/// The diversity of a slot is the number of different fields that stand there.
pub proof fn law_diversity(rows: Seq<Seq<TokenModel>>, slot: int)
    ensures
        diversity(rows, slot) == Seq::new(
            column(rows, slot).len(),
            |i: int| column(rows, slot)[i].field,
        ).to_set().len(),
{
    let s = fields_in(column(rows, slot));
    let d = distinct(s);
    law_distinct(s);
    assert(d.to_set() =~= s.to_set()) by {
        assert forall|x: FieldModel| #[trigger] d.to_set().contains(x) <==> s.to_set().contains(
            x,
        ) by {
            assert(d.contains(x) <==> s.contains(x));
        }
    }
    d.unique_seq_to_set();
    assert(Seq::new(column(rows, slot).len(), |i: int| column(rows, slot)[i].field) =~= s);
}

proof fn lemma_slots_in(row: Seq<TokenModel>, f: FieldModel)
    ensures
        forall|k: int| #[trigger]
            slots_in(row, f).contains(k) <==> 0 <= k < row.len() && row[k].field == f,
        slots_in(row, f).len() == count_of(row, |t: TokenModel| t.field == f),
    decreases row.len(),
{
    if row.len() > 0 {
        let t = row.drop_last();
        let a = slots_in(t, f);
        let b = slots_in(row, f);
        lemma_slots_in(t, f);
        assert forall|k: int| #[trigger] b.contains(k) <==> 0 <= k < row.len() && row[k].field
            == f by {
            if b.contains(k) {
                let i = choose|i: int| 0 <= i < b.len() && b[i] == k;
                if i < a.len() {
                    assert(a[i] == k);
                    assert(a.contains(k));
                }
            }
            if 0 <= k < row.len() && row[k].field == f {
                if k < t.len() {
                    assert(a.contains(k));
                    let i = choose|i: int| 0 <= i < a.len() && a[i] == k;
                    assert(b[i] == k);
                } else {
                    assert(b[a.len() as int] == k);
                }
            }
        }
    }
}

/// A field has a slot for each time that it occurs in a stem: the place where it stands.
pub proof fn law_slots(
    rows: Seq<Seq<TokenModel>>,
    row: Seq<TokenModel>,
    f: FieldModel,
    k: int,
)
    ensures
        slots_of(Seq::empty(), f).len() == 0,
        slots_of(rows.push(row), f).len() == slots_of(rows, f).len() + count_of(
            row,
            |t: TokenModel| t.field == f,
        ),
        slots_of(rows.push(row), f).contains(k) <==> slots_of(rows, f).contains(k) || (0 <= k
            < row.len() && row[k].field == f),
{
    assert(rows.push(row).drop_last() =~= rows);
    lemma_slots_in(row, f);
    let a = slots_of(rows, f);
    let b = slots_in(row, f);
    let c = slots_of(rows.push(row), f);
    assert(c == a + b);
    if c.contains(k) {
        let i = choose|i: int| 0 <= i < c.len() && c[i] == k;
        if i < a.len() {
            assert(a[i] == k);
        } else {
            assert(b[i - a.len()] == k);
            assert(b.contains(k));
        }
    }
    if a.contains(k) {
        let i = choose|i: int| 0 <= i < a.len() && a[i] == k;
        assert(c[i] == k);
    }
    if b.contains(k) {
        let i = choose|i: int| 0 <= i < b.len() && b[i] == k;
        assert(c[a.len() + i] == k);
    }
}

/// Digits rank before other numerals, these before letters outside ASCII, these before
/// ASCII letters, and separators last.
pub proof fn law_priority()
    ensures
        priority(FieldKind::Digit) > priority(FieldKind::CjkDigit),
        priority(FieldKind::CjkDigit) > priority(FieldKind::CjkAlpha),
        priority(FieldKind::CjkAlpha) > priority(FieldKind::Alpha),
        priority(FieldKind::Alpha) > priority(FieldKind::Separator),
{
}

// ---------------------------------------------------------------------------
// Candidates
// ---------------------------------------------------------------------------
/// The best slot of the field `f`: one at which it stands, with more different fields than
/// any other at which it stands, and the lowest of those with as many.
pub open spec fn best_slot(rows: Seq<Seq<TokenModel>>, f: FieldModel, slot: int) -> bool {
    &&& slots_of(rows, f).contains(slot)
    &&& forall|k: int| #[trigger]
        slots_of(rows, f).contains(k) ==> diversity(rows, k) < diversity(rows, slot) || (diversity(
            rows,
            k,
        ) == diversity(rows, slot) && slot <= k)
}

proof fn lemma_best_slot(rows: Seq<Seq<TokenModel>>, f: FieldModel)
    ensures
        match top_slot(rows, slots_of(rows, f)) {
            Some(b) => best_slot(rows, f, b),
            None => forall|k: int| !#[trigger] slots_of(rows, f).contains(k),
        },
{
    let s = slots_of(rows, f);
    law_top_slot(rows, s);
    if let Some(b) = top_slot(rows, s) {
        assert forall|k: int| #[trigger] s.contains(k) implies diversity(rows, k) < diversity(
            rows,
            b,
        ) || (diversity(rows, k) == diversity(rows, b) && b <= k) by {
            let i = choose|i: int| 0 <= i < s.len() && s[i] == k;
            assert(diversity(rows, s[i]) <= diversity(rows, b));
        }
    }
}

proof fn lemma_among(
    video: Seq<Seq<TokenModel>>,
    sub: Seq<Seq<TokenModel>>,
    fields: Seq<FieldModel>,
    c: CandidateModel,
)
    ensures
        candidates_among(video, sub, fields).contains(c) <==> fields.contains(c.field)
            && candidate_for(video, sub, c.field) == Some(c),
    decreases fields.len(),
{
    if fields.len() > 0 {
        let t = fields.drop_last();
        let a = candidates_among(video, sub, t);
        let b = candidates_among(video, sub, fields);
        lemma_among(video, sub, t, c);
        if b.contains(c) {
            let i = choose|i: int| 0 <= i < b.len() && b[i] == c;
            if i < a.len() {
                assert(a[i] == c);
                assert(a.contains(c));
                let j = choose|j: int| 0 <= j < t.len() && t[j] == c.field;
                assert(fields[j] == c.field);
            } else {
                assert(fields[t.len() as int] == c.field);
            }
        }
        if fields.contains(c.field) && candidate_for(video, sub, c.field) == Some(c) {
            let j = choose|j: int| 0 <= j < fields.len() && fields[j] == c.field;
            if j < t.len() {
                assert(t[j] == c.field);
                assert(a.contains(c));
                let i = choose|i: int| 0 <= i < a.len() && a[i] == c;
                assert(b[i] == c);
            } else {
                assert(b[a.len() as int] == c);
            }
        }
    }
}

proof fn lemma_flat(rows: Seq<Seq<TokenModel>>, f: FieldModel)
    ensures
        flat(rows).contains(f) <==> slots_of(rows, f).len() > 0,
    decreases rows.len(),
{
    if rows.len() > 0 {
        let t = rows.drop_last();
        let row = rows.last();
        lemma_flat(t, f);
        lemma_slots_in(row, f);
        let a = flat(t);
        let b = fields_in(row);
        if (a + b).contains(f) {
            let i = choose|i: int| 0 <= i < (a + b).len() && (a + b)[i] == f;
            if i < a.len() {
                assert(a[i] == f);
            } else {
                assert(row[i - a.len()].field == f);
                assert(slots_in(row, f).contains(i - a.len()));
            }
        }
        if a.contains(f) {
            let i = choose|i: int| 0 <= i < a.len() && a[i] == f;
            assert((a + b)[i] == f);
        }
        if slots_in(row, f).len() > 0 {
            let k = slots_in(row, f)[0];
            assert(slots_in(row, f).contains(k));
            assert((a + b)[a.len() + k] == f);
        }
    }
}

/// The candidates are the fields that stand on both sides at a best slot with two different
/// fields or more, each with those slots, the number of different fields at both, and the
/// number of times that it occurs on both sides.
pub proof fn law_candidates(
    video: Seq<Seq<TokenModel>>,
    sub: Seq<Seq<TokenModel>>,
    c: CandidateModel,
)
    ensures
        candidates(video, sub).contains(c) <==> {
            &&& best_slot(video, c.field, c.video_slot)
            &&& best_slot(sub, c.field, c.sub_slot)
            &&& diversity(video, c.video_slot) >= 2
            &&& diversity(sub, c.sub_slot) >= 2
            &&& c.diversity == diversity(video, c.video_slot) + diversity(sub, c.sub_slot)
            &&& c.occurrences == slots_of(video, c.field).len() + slots_of(sub, c.field).len()
        },
{
    broadcast use vstd::seq_lib::group_to_multiset_ensures;

    let le = |a: CandidateModel, b: CandidateModel| ranks(a, b);
    let all = candidates_among(video, sub, distinct(flat(video)));
    let r = candidates(video, sub);
    lemma_sorted_multiset(all, le);
    assert(all.contains(c) <==> all.to_multiset().count(c) > 0);
    assert(r.contains(c) <==> r.to_multiset().count(c) > 0);
    lemma_among(video, sub, distinct(flat(video)), c);
    law_distinct(flat(video));
    assert(distinct(flat(video)).contains(c.field) <==> flat(video).contains(c.field));
    lemma_flat(video, c.field);
    lemma_best_slot(video, c.field);
    lemma_best_slot(sub, c.field);
    law_top_slot(video, slots_of(video, c.field));
    law_top_slot(sub, slots_of(sub, c.field));
    if best_slot(video, c.field, c.video_slot) {
        let a = top_slot(video, slots_of(video, c.field))->0;
        assert(slots_of(video, c.field).contains(a));
        assert(a == c.video_slot);
    }
    if best_slot(sub, c.field, c.sub_slot) {
        let b = top_slot(sub, slots_of(sub, c.field))->0;
        assert(slots_of(sub, c.field).contains(b));
        assert(b == c.sub_slot);
    }
}

/// Candidates stand in the order of their kinds. Where these are level, more different
/// fields come first, then fewer occurrences, then fewer bytes, then the order of the texts.
pub proof fn law_candidate_order(
    video: Seq<Seq<TokenModel>>,
    sub: Seq<Seq<TokenModel>>,
    i: int,
    j: int,
)
    requires
        0 <= i < j < candidates(video, sub).len(),
    ensures
        ({
            let a = candidates(video, sub)[i];
            let b = candidates(video, sub)[j];
            let x = priority(a.field.kind);
            let y = priority(b.field.kind);
            let m = byte_len(a.field.text);
            let n = byte_len(b.field.text);
            ||| x > y
            ||| x == y && a.diversity > b.diversity
            ||| x == y && a.diversity == b.diversity && a.occurrences < b.occurrences
            ||| x == y && a.diversity == b.diversity && a.occurrences == b.occurrences && m < n
            ||| x == y && a.diversity == b.diversity && a.occurrences == b.occurrences && m == n
                && lex_le(a.field.text, b.field.text)
        }),
{
    let le = |a: CandidateModel, b: CandidateModel| ranks(a, b);
    law_candidates_ranked(video, sub);
    assert(le(candidates(video, sub)[i], candidates(video, sub)[j]));
}

// ---------------------------------------------------------------------------
// The slots that win
// ---------------------------------------------------------------------------
/// The matches of two columns of keys are the pairs of a key of one and the same key of the
/// other.
pub proof fn law_matches(
    a: Seq<Option<KeyModel>>,
    k: Option<KeyModel>,
    b: Seq<Option<KeyModel>>,
)
    ensures
        matches_of(Seq::empty(), b) == 0,
        matches_of(a.push(k), b) == matches_of(a, b) + if k is Some {
            count_of(b, |x: Option<KeyModel>| x == k)
        } else {
            0
        },
{
    assert(a.push(k).drop_last() =~= a);
    if let Some(key) = k {
        assert((|x: Option<KeyModel>| x == Some(key)) =~= (|x: Option<KeyModel>| x == k));
    }
}

/// `x` is the better of two scores: more different fields, or else more matches, or else
/// more pairs, or else fewer occurrences.
pub open spec fn outscores(x: ScoreModel, y: ScoreModel) -> bool {
    ||| x.diversity > y.diversity
    ||| x.diversity == y.diversity && x.matches > y.matches
    ||| x.diversity == y.diversity && x.matches == y.matches && x.pairs > y.pairs
    ||| x.diversity == y.diversity && x.matches == y.matches && x.pairs == y.pairs && x.occurrences
        < y.occurrences
}

/// The score of a candidate: what it carries, the matches of the keys at its slots, and the
/// number of pairs of a video and a subtitle that have a field there.
pub proof fn law_score(video: Seq<Seq<TokenModel>>, sub: Seq<Seq<TokenModel>>, c: CandidateModel)
    ensures
        ({
            let x = score_for(video, sub, c);
            let v = column(video, c.video_slot);
            let s = column(sub, c.sub_slot);
            &&& x.video_slot == c.video_slot
            &&& x.sub_slot == c.sub_slot
            &&& x.diversity == c.diversity
            &&& x.occurrences == c.occurrences
            &&& x.pairs == v.len() * s.len()
            &&& x.matches == matches_of(
                Seq::new(v.len(), |i: int| v[i].key),
                Seq::new(s.len(), |i: int| s[i].key),
            )
        }),
{
    let v = column(video, c.video_slot);
    let s = column(sub, c.sub_slot);
    assert(Seq::new(v.len(), |i: int| v[i].key) =~= keys_at_slot(video, c.video_slot));
    assert(Seq::new(s.len(), |i: int| s[i].key) =~= keys_at_slot(sub, c.sub_slot));
}

/// Candidate `k` wins: no candidate has a better score, and it has a better one than each
/// that stands before it.
pub open spec fn prevails(
    video: Seq<Seq<TokenModel>>,
    sub: Seq<Seq<TokenModel>>,
    k: int,
) -> bool {
    let cs = candidates(video, sub);
    &&& 0 <= k < cs.len()
    &&& forall|i: int|
        0 <= i < cs.len() ==> !outscores(
            score_for(video, sub, #[trigger] cs[i]),
            score_for(video, sub, cs[k]),
        )
    &&& forall|i: int|
        0 <= i < k ==> outscores(
            score_for(video, sub, cs[k]),
            score_for(video, sub, #[trigger] cs[i]),
        )
}

/// The slots that line up are those of the candidate that wins. None do only where there is
/// no candidate.
pub proof fn law_aligned(video: Seq<Seq<TokenModel>>, sub: Seq<Seq<TokenModel>>)
    ensures
        match aligned(video, sub) {
            Some(p) => exists|k: int| #[trigger]
                prevails(video, sub, k) && p == (
                    candidates(video, sub)[k].video_slot,
                    candidates(video, sub)[k].sub_slot,
                ),
            None => candidates(video, sub).len() == 0,
        },
{
    let cs = candidates(video, sub);
    let scores = scores_for(video, sub, cs);
    law_winner(scores);
    if let Some(w) = winner(scores) {
        let k = choose|k: int|
            0 <= k < scores.len() && #[trigger] scores[k] == w && (forall|i: int|
                0 <= i < k ==> beats(w, #[trigger] scores[i]));
        assert forall|i: int| 0 <= i < cs.len() implies !outscores(
            score_for(video, sub, #[trigger] cs[i]),
            score_for(video, sub, cs[k]),
        ) by {
            assert(!beats(scores[i], w));
        }
        assert forall|i: int| 0 <= i < k implies outscores(
            score_for(video, sub, cs[k]),
            score_for(video, sub, #[trigger] cs[i]),
        ) by {
            assert(beats(w, scores[i]));
        }
        assert(prevails(video, sub, k));
    }
}

/// The tokens of a stem are its fields, each with the key that its text alone gives.
pub proof fn law_tokens(stems: Seq<Seq<char>>, i: int, k: int)
    requires
        0 <= i < stems.len(),
        0 <= k < fields_of(stems[i]).len(),
    ensures
        token_rows(stems).len() == stems.len(),
        token_rows(stems)[i].len() == fields_of(stems[i]).len(),
        token_rows(stems)[i][k].field == fields_of(stems[i])[k],
        token_rows(stems)[i][k].key == key_of(Some(fields_of(stems[i])[k].text)),
{
}

/// Where slots line up, the raw key of each video is the text of its field at the slot of
/// the videos, and that of each subtitle the text of its field at the slot of the subtitles.
/// It is absent where the stem is too short.
pub proof fn law_cross_by_slot(videos: Seq<Seq<char>>, subs: Seq<Seq<char>>, i: int, j: int)
    requires
        0 <= i < videos.len(),
        0 <= j < subs.len(),
        aligned(token_rows(comparables(videos)), token_rows(comparables(subs))) is Some,
    ensures
        ({
            let p = aligned(token_rows(comparables(videos)), token_rows(comparables(subs)))->0;
            let v = fields_of(comparables(videos)[i]);
            let s = fields_of(comparables(subs)[j]);
            &&& cross_keys(videos, subs).0[i] == if 0 <= p.0 < v.len() {
                Some(v[p.0].text)
            } else {
                None
            }
            &&& cross_keys(videos, subs).1[j] == if 0 <= p.1 < s.len() {
                Some(s[p.1].text)
            } else {
                None
            }
        }),
{
}

/// Where no slots line up, each side is read on its own.
pub proof fn law_cross_apart(videos: Seq<Seq<char>>, subs: Seq<Seq<char>>)
    requires
        aligned(token_rows(comparables(videos)), token_rows(comparables(subs))) is None,
    ensures
        cross_keys(videos, subs).0 == raw_keys(comparables(videos)),
        cross_keys(videos, subs).1 == raw_keys(comparables(subs)),
{
}

} // verus!
