//! Raw keys of videos and subtitles together: the slots whose fields line up.

use vstd::prelude::*;
use vstd::string::*;

use crate::extract::{
    all_fields, byte_len, comparables, extract_with, law_one_key_each, normalize_stems, owned,
    raw_keys, split_all,
};
use crate::fields::{field_models, stem_models, Field, FieldKind, FieldModel};
use crate::key::{opt_key, opt_keys, raw_views, EpisodeKey, KeyModel, RawKey};
use crate::normalize::{key_of, normalize_with, str_views};
use crate::pattern::{views, Patterns};
use crate::sorting::{
    count_of, distinct, in_order, lemma_sorted_in_order, models, sort_models, sorted_by,
};
use crate::text::{copy_of, lemma_lex_le_trans, lemma_lex_total, lex_le, str_before};

verus! {

/// A field of a stem with the key that its text alone gives.
#[derive(Debug)]
pub struct Token {
    /// The field.
    pub field: Field,
    /// Its key.
    pub key: Option<EpisodeKey>,
}

/// What a [`Token`] stands for.
pub struct TokenModel {
    pub field: FieldModel,
    pub key: Option<KeyModel>,
}

impl View for Token {
    type V = TokenModel;

    open spec fn view(&self) -> TokenModel {
        TokenModel { field: self.field@, key: opt_key(self.key) }
    }
}

/// What the tokens of each stem stand for.
pub open spec fn rows(v: Seq<Vec<Token>>) -> Seq<Seq<TokenModel>> {
    Seq::new(v.len(), |i: int| models(v[i]@))
}

/// The fields of the tokens.
pub open spec fn fields_in(row: Seq<TokenModel>) -> Seq<FieldModel> {
    Seq::new(row.len(), |i: int| row[i].field)
}

/// The fields of all stems, one stem after the other.
pub open spec fn flat(rows: Seq<Seq<TokenModel>>) -> Seq<FieldModel>
    decreases rows.len(),
{
    if rows.len() == 0 {
        Seq::empty()
    } else {
        flat(rows.drop_last()) + fields_in(rows.last())
    }
}

/// The tokens that stand at `slot`, of the stems that are long enough.
pub open spec fn column(rows: Seq<Seq<TokenModel>>, slot: int) -> Seq<TokenModel>
    decreases rows.len(),
{
    if rows.len() == 0 {
        Seq::empty()
    } else {
        let c = column(rows.drop_last(), slot);
        if 0 <= slot < rows.last().len() {
            c.push(rows.last()[slot])
        } else {
            c
        }
    }
}

/// How many different fields stand at `slot`.
pub open spec fn diversity(rows: Seq<Seq<TokenModel>>, slot: int) -> nat {
    distinct(fields_in(column(rows, slot))).len()
}

/// The slots of one stem at which `f` stands.
pub open spec fn slots_in(row: Seq<TokenModel>, f: FieldModel) -> Seq<int>
    decreases row.len(),
{
    if row.len() == 0 {
        Seq::empty()
    } else if row.last().field == f {
        slots_in(row.drop_last(), f).push(row.len() - 1)
    } else {
        slots_in(row.drop_last(), f)
    }
}

/// The slots at which `f` stands, one for each time that it occurs.
pub open spec fn slots_of(rows: Seq<Seq<TokenModel>>, f: FieldModel) -> Seq<int>
    decreases rows.len(),
{
    if rows.len() == 0 {
        Seq::empty()
    } else {
        slots_of(rows.drop_last(), f) + slots_in(rows.last(), f)
    }
}

/// Of these slots the one with the most different fields, the lowest of those.
pub open spec fn top_slot(rows: Seq<Seq<TokenModel>>, slots: Seq<int>) -> Option<int>
    decreases slots.len(),
{
    if slots.len() == 0 {
        None
    } else {
        let x = slots.last();
        match top_slot(rows, slots.drop_last()) {
            Some(b) if diversity(rows, b) > diversity(rows, x) || (diversity(rows, b) == diversity(
                rows,
                x,
            ) && b <= x) => Some(b),
            _ => Some(x),
        }
    }
}

/// The chosen slot is one of the slots, none has more different fields, and of
/// those with as many it is the lowest.
pub proof fn law_top_slot(rows: Seq<Seq<TokenModel>>, slots: Seq<int>)
    ensures
        match top_slot(rows, slots) {
            Some(b) => slots.contains(b) && forall|i: int|
                0 <= i < slots.len() ==> diversity(rows, #[trigger] slots[i]) < diversity(rows, b)
                    || (diversity(rows, slots[i]) == diversity(rows, b) && b <= slots[i]),
            None => slots.len() == 0,
        },
    decreases slots.len(),
{
    if slots.len() > 0 {
        let t = slots.drop_last();
        law_top_slot(rows, t);
        let b = top_slot(rows, slots)->0;
        if b == slots.last() {
            assert(slots[slots.len() - 1] == b);
        } else {
            let i = choose|i: int| 0 <= i < t.len() && t[i] == b;
            assert(slots[i] == b);
        }
        assert forall|i: int| 0 <= i < slots.len() implies diversity(rows, #[trigger] slots[i])
            < diversity(rows, b) || (diversity(rows, slots[i]) == diversity(rows, b) && b
            <= slots[i]) by {
            if i < t.len() {
                assert(t[i] == slots[i]);
            }
        }
    }
}

/// The rank of a kind among the fields that line videos and subtitles up.
pub open spec fn priority(k: FieldKind) -> nat {
    match k {
        FieldKind::Digit => 5,
        FieldKind::CjkDigit => 4,
        FieldKind::CjkAlpha => 3,
        FieldKind::Alpha => 2,
        FieldKind::Separator => 1,
    }
}

/// The rank of a kind among the fields that line videos and subtitles up.
pub fn kind_priority(kind: FieldKind) -> (r: u32)
    ensures
        r == priority(kind),
{
    match kind {
        FieldKind::Digit => 5,
        FieldKind::CjkDigit => 4,
        FieldKind::CjkAlpha => 3,
        FieldKind::Alpha => 2,
        FieldKind::Separator => 1,
    }
}

// ---------------------------------------------------------------------------
// Candidates
// ---------------------------------------------------------------------------
/// What a [`Candidate`] stands for.
pub struct CandidateModel {
    pub field: FieldModel,
    pub video_slot: int,
    pub sub_slot: int,
    pub diversity: int,
    pub occurrences: int,
}

/// A field that stands on both sides, at a slot that varies on both.
#[derive(Debug)]
pub struct Candidate {
    /// The field.
    pub field: Field,
    /// Its slot among the videos.
    pub video_slot: usize,
    /// Its slot among the subtitles.
    pub sub_slot: usize,
    /// How many different fields stand at the two slots.
    pub diversity: u128,
    /// How often the field stands on both sides.
    pub occurrences: u128,
}

impl View for Candidate {
    type V = CandidateModel;

    open spec fn view(&self) -> CandidateModel {
        CandidateModel {
            field: self.field@,
            video_slot: self.video_slot as int,
            sub_slot: self.sub_slot as int,
            diversity: self.diversity as int,
            occurrences: self.occurrences as int,
        }
    }
}

/// The candidate that `f` is: it stands on both sides, and on both at a slot with
/// two different fields or more.
pub open spec fn candidate_for(
    video: Seq<Seq<TokenModel>>,
    sub: Seq<Seq<TokenModel>>,
    f: FieldModel,
) -> Option<CandidateModel> {
    let vs = slots_of(video, f);
    let ss = slots_of(sub, f);
    match (top_slot(video, vs), top_slot(sub, ss)) {
        (Some(a), Some(b)) => if diversity(video, a) >= 2 && diversity(sub, b) >= 2 {
            Some(
                CandidateModel {
                    field: f,
                    video_slot: a,
                    sub_slot: b,
                    diversity: (diversity(video, a) + diversity(sub, b)) as int,
                    occurrences: (vs.len() + ss.len()) as int,
                },
            )
        } else {
            None
        },
        _ => None,
    }
}

/// The candidates among `fields`.
pub open spec fn candidates_among(
    video: Seq<Seq<TokenModel>>,
    sub: Seq<Seq<TokenModel>>,
    fields: Seq<FieldModel>,
) -> Seq<CandidateModel>
    decreases fields.len(),
{
    if fields.len() == 0 {
        Seq::empty()
    } else {
        let c = candidates_among(video, sub, fields.drop_last());
        match candidate_for(video, sub, fields.last()) {
            Some(x) => c.push(x),
            None => c,
        }
    }
}

/// `a` ranks before `b` or level with it: by kind, then by more different fields,
/// fewer occurrences, fewer bytes, and the order of the texts.
pub open spec fn ranks(a: CandidateModel, b: CandidateModel) -> bool {
    if priority(a.field.kind) != priority(b.field.kind) {
        priority(a.field.kind) > priority(b.field.kind)
    } else if a.diversity != b.diversity {
        a.diversity > b.diversity
    } else if a.occurrences != b.occurrences {
        a.occurrences < b.occurrences
    } else if byte_len(a.field.text) != byte_len(b.field.text) {
        byte_len(a.field.text) < byte_len(b.field.text)
    } else {
        lex_le(a.field.text, b.field.text)
    }
}

/// The candidates of the two sides, best first.
pub open spec fn candidates(
    video: Seq<Seq<TokenModel>>,
    sub: Seq<Seq<TokenModel>>,
) -> Seq<CandidateModel> {
    sorted_by(
        candidates_among(video, sub, distinct(flat(video))),
        |a: CandidateModel, b: CandidateModel| ranks(a, b),
    )
}

/// The candidates stand in the order of their ranks.
pub proof fn law_candidates_ranked(video: Seq<Seq<TokenModel>>, sub: Seq<Seq<TokenModel>>)
    ensures
        in_order(candidates(video, sub), |a: CandidateModel, b: CandidateModel| ranks(a, b)),
{
    let le = |a: CandidateModel, b: CandidateModel| ranks(a, b);
    assert forall|a: CandidateModel, b: CandidateModel| #[trigger] le(a, b) || le(b, a) by {
        lemma_lex_total(a.field.text, b.field.text);
    }
    assert forall|a: CandidateModel, b: CandidateModel, c: CandidateModel| #[trigger]
        le(a, b) && #[trigger] le(b, c) implies le(a, c) by {
        if lex_le(a.field.text, b.field.text) && lex_le(b.field.text, c.field.text) {
            lemma_lex_le_trans(a.field.text, b.field.text, c.field.text);
        }
    }
    lemma_sorted_in_order(candidates_among(video, sub, distinct(flat(video))), le);
}

// ---------------------------------------------------------------------------
// The slots that line up
// ---------------------------------------------------------------------------
/// The keys of the tokens at `slot`.
pub open spec fn keys_at_slot(rows: Seq<Seq<TokenModel>>, slot: int) -> Seq<Option<KeyModel>> {
    Seq::new(column(rows, slot).len(), |i: int| column(rows, slot)[i].key)
}

/// How many keys of `b` are `key`.
pub open spec fn times(b: Seq<Option<KeyModel>>, key: KeyModel) -> nat {
    count_of(b, |k: Option<KeyModel>| k == Some(key))
}

/// How many pairs of a key of `a` and a key of `b` are the same key.
pub open spec fn matches_of(a: Seq<Option<KeyModel>>, b: Seq<Option<KeyModel>>) -> nat
    decreases a.len(),
{
    if a.len() == 0 {
        0
    } else {
        matches_of(a.drop_last(), b) + match a.last() {
            Some(k) => times(b, k),
            None => 0,
        }
    }
}

/// What a [`SlotScore`] stands for.
pub struct ScoreModel {
    pub video_slot: int,
    pub sub_slot: int,
    pub diversity: int,
    pub matches: int,
    pub pairs: int,
    pub occurrences: int,
}

/// How well a slot of the videos and one of the subtitles line up.
#[derive(Debug)]
pub struct SlotScore {
    /// The slot among the videos.
    pub video_slot: usize,
    /// The slot among the subtitles.
    pub sub_slot: usize,
    /// How many different fields stand at the two slots.
    pub diversity: u128,
    /// How many pairs of a video and a subtitle have the same key there.
    pub matches: u128,
    /// How many pairs of a video and a subtitle have a field there.
    pub pairs: u128,
    /// How often the candidate occurs.
    pub occurrences: u128,
}

impl View for SlotScore {
    type V = ScoreModel;

    open spec fn view(&self) -> ScoreModel {
        ScoreModel {
            video_slot: self.video_slot as int,
            sub_slot: self.sub_slot as int,
            diversity: self.diversity as int,
            matches: self.matches as int,
            pairs: self.pairs as int,
            occurrences: self.occurrences as int,
        }
    }
}

/// The score of the slots of `c`.
pub open spec fn score_for(
    video: Seq<Seq<TokenModel>>,
    sub: Seq<Seq<TokenModel>>,
    c: CandidateModel,
) -> ScoreModel {
    let a = keys_at_slot(video, c.video_slot);
    let b = keys_at_slot(sub, c.sub_slot);
    ScoreModel {
        video_slot: c.video_slot,
        sub_slot: c.sub_slot,
        diversity: c.diversity,
        matches: matches_of(a, b) as int,
        pairs: (a.len() * b.len()) as int,
        occurrences: c.occurrences,
    }
}

/// `a` is a better score than `b`: more different fields, then more matches, more
/// pairs, and fewer occurrences.
pub open spec fn beats(a: ScoreModel, b: ScoreModel) -> bool {
    if a.diversity != b.diversity {
        a.diversity > b.diversity
    } else if a.matches != b.matches {
        a.matches > b.matches
    } else if a.pairs != b.pairs {
        a.pairs > b.pairs
    } else {
        a.occurrences < b.occurrences
    }
}

/// The first of the best scores.
pub open spec fn winner(scores: Seq<ScoreModel>) -> Option<ScoreModel>
    decreases scores.len(),
{
    if scores.len() == 0 {
        None
    } else {
        match winner(scores.drop_last()) {
            Some(w) if !beats(scores.last(), w) => Some(w),
            _ => Some(scores.last()),
        }
    }
}

/// The winner is one of the scores, no score beats it, and it beats every score
/// that stands before its place.
pub proof fn law_winner(scores: Seq<ScoreModel>)
    ensures
        match winner(scores) {
            Some(w) => exists|k: int|
                0 <= k < scores.len() && #[trigger] scores[k] == w && (forall|i: int|
                    0 <= i < k ==> beats(w, #[trigger] scores[i])),
            None => scores.len() == 0,
        },
        winner(scores) matches Some(w) ==> forall|i: int|
            0 <= i < scores.len() ==> !beats(#[trigger] scores[i], w),
    decreases scores.len(),
{
    if scores.len() > 0 {
        let t = scores.drop_last();
        law_winner(t);
        match winner(t) {
            Some(w) => {
                let k = choose|k: int|
                    0 <= k < t.len() && #[trigger] t[k] == w && (forall|i: int|
                        0 <= i < k ==> beats(w, #[trigger] t[i]));
                if beats(scores.last(), w) {
                    assert(scores[scores.len() - 1] == scores.last());
                    assert forall|i: int| 0 <= i < scores.len() - 1 implies beats(
                        scores.last(),
                        #[trigger] scores[i],
                    ) by {
                        assert(!beats(t[i], w));
                    }
                } else {
                    assert(scores[k] == w);
                    assert forall|i: int| 0 <= i < k implies beats(w, #[trigger] scores[i]) by {
                        assert(t[i] == scores[i]);
                    }
                    assert forall|i: int| 0 <= i < scores.len() implies !beats(
                        #[trigger] scores[i],
                        w,
                    ) by {
                        if i < t.len() {
                            assert(t[i] == scores[i]);
                        }
                    }
                }
            },
            None => {
                assert(scores[0] == scores.last());
            },
        }
    }
}

/// The score of each candidate.
pub open spec fn scores_for(
    video: Seq<Seq<TokenModel>>,
    sub: Seq<Seq<TokenModel>>,
    c: Seq<CandidateModel>,
) -> Seq<ScoreModel> {
    Seq::new(c.len(), |i: int| score_for(video, sub, c[i]))
}

/// The slots at which videos and subtitles line up best.
pub open spec fn aligned(video: Seq<Seq<TokenModel>>, sub: Seq<Seq<TokenModel>>) -> Option<
    (int, int),
> {
    match winner(scores_for(video, sub, candidates(video, sub))) {
        Some(w) => Some((w.video_slot, w.sub_slot)),
        None => None,
    }
}

// ---------------------------------------------------------------------------
// Computation
// ---------------------------------------------------------------------------
/// The distinct fields of `v`, in the order in which they first occur.
fn distinct_fields(v: &Vec<Field>) -> (r: Vec<Field>)
    ensures
        field_models(r@) == distinct(field_models(v@)),
{
    let ghost all = field_models(v@);
    let mut out: Vec<Field> = Vec::new();
    let mut i: usize = 0;
    assert(field_models(out@) =~= distinct(all.take(0)));
    while i < v.len()
        invariant
            all == field_models(v@),
            i <= v@.len(),
            field_models(out@) == distinct(all.take(i as int)),
        decreases v@.len() - i,
    {
        let ghost seen = field_models(out@);
        let mut j: usize = 0;
        while j < out.len() && !out[j].same(&v[i])
            invariant
                i < v@.len(),
                seen == field_models(out@),
                j <= out@.len(),
                forall|k: int| 0 <= k < j ==> seen[k] != v@[i as int]@,
            decreases out@.len() - j,
        {
            j += 1;
        }
        proof {
            assert(all.take(i + 1).drop_last() =~= all.take(i as int));
            assert(all.take(i + 1).last() == v@[i as int]@);
            if j < out@.len() {
                assert(seen[j as int] == v@[i as int]@);
            }
        }
        if j == out.len() {
            out.push(v[i].clone());
            assert(field_models(out@) =~= seen.push(v@[i as int]@));
        }
        i += 1;
    }
    assert(all.take(i as int) =~= all);
    out
}

/// The fields of all stems, one stem after the other.
fn flat_fields(tokens: &Vec<Vec<Token>>) -> (r: Vec<Field>)
    ensures
        field_models(r@) == flat(rows(tokens@)),
{
    let ghost all = rows(tokens@);
    let mut out: Vec<Field> = Vec::new();
    let mut i: usize = 0;
    assert(field_models(out@) =~= flat(all.take(0)));
    while i < tokens.len()
        invariant
            all == rows(tokens@),
            i <= tokens@.len(),
            field_models(out@) == flat(all.take(i as int)),
        decreases tokens@.len() - i,
    {
        let ghost base = field_models(out@);
        let ghost row = all[i as int];
        let mut k: usize = 0;
        assert(base + fields_in(row).take(0) =~= base);
        while k < tokens[i].len()
            invariant
                all == rows(tokens@),
                i < tokens@.len(),
                row == all[i as int],
                k <= tokens@[i as int]@.len(),
                field_models(out@) == base + fields_in(row).take(k as int),
            decreases tokens@[i as int]@.len() - k,
        {
            let ghost before = field_models(out@);
            out.push(tokens[i][k].field.clone());
            proof {
                assert(row[k as int] == tokens@[i as int]@[k as int]@);
                assert(field_models(out@) =~= before.push(row[k as int].field));
                assert(fields_in(row).take(k + 1) =~= fields_in(row).take(k as int).push(
                    row[k as int].field,
                ));
                assert(field_models(out@) =~= base + fields_in(row).take(k + 1));
            }
            k += 1;
        }
        proof {
            assert(fields_in(row).take(k as int) =~= fields_in(row));
            assert(all.take(i + 1).drop_last() =~= all.take(i as int));
            assert(all.take(i + 1).last() == row);
        }
        i += 1;
    }
    assert(all.take(i as int) =~= all);
    out
}

/// The fields that stand at `slot`.
fn column_fields(tokens: &Vec<Vec<Token>>, slot: usize) -> (r: Vec<Field>)
    ensures
        field_models(r@) == fields_in(column(rows(tokens@), slot as int)),
{
    let ghost all = rows(tokens@);
    let mut out: Vec<Field> = Vec::new();
    let mut i: usize = 0;
    assert(field_models(out@) =~= fields_in(column(all.take(0), slot as int)));
    while i < tokens.len()
        invariant
            all == rows(tokens@),
            i <= tokens@.len(),
            field_models(out@) == fields_in(column(all.take(i as int), slot as int)),
        decreases tokens@.len() - i,
    {
        let ghost before = field_models(out@);
        proof {
            assert(all.take(i + 1).drop_last() =~= all.take(i as int));
            assert(all.take(i + 1).last() == models(tokens@[i as int]@));
        }
        if slot < tokens[i].len() {
            out.push(tokens[i][slot].field.clone());
            assert(field_models(out@) =~= before.push(tokens@[i as int]@[slot as int]@.field));
        }
        assert(field_models(out@) =~= fields_in(column(all.take(i + 1), slot as int)));
        i += 1;
    }
    assert(all.take(i as int) =~= all);
    out
}

/// The keys of the tokens at `slot`.
fn column_keys(tokens: &Vec<Vec<Token>>, slot: usize) -> (r: Vec<Option<EpisodeKey>>)
    ensures
        opt_keys(r@) == keys_at_slot(rows(tokens@), slot as int),
{
    let ghost all = rows(tokens@);
    let mut out: Vec<Option<EpisodeKey>> = Vec::new();
    let mut i: usize = 0;
    assert(opt_keys(out@) =~= keys_at_slot(all.take(0), slot as int));
    while i < tokens.len()
        invariant
            all == rows(tokens@),
            i <= tokens@.len(),
            opt_keys(out@) == keys_at_slot(all.take(i as int), slot as int),
        decreases tokens@.len() - i,
    {
        let ghost before = opt_keys(out@);
        proof {
            assert(all.take(i + 1).drop_last() =~= all.take(i as int));
            assert(all.take(i + 1).last() == models(tokens@[i as int]@));
        }
        if slot < tokens[i].len() {
            let key = match &tokens[i][slot].key {
                Some(k) => Some(k.clone()),
                None => None,
            };
            assert(opt_key(key) == tokens@[i as int]@[slot as int]@.key);
            out.push(key);
            assert(opt_keys(out@) =~= before.push(opt_key(key)));
        }
        assert(opt_keys(out@) =~= keys_at_slot(all.take(i + 1), slot as int));
        i += 1;
    }
    assert(all.take(i as int) =~= all);
    out
}

/// How many different fields stand at each slot.
fn slot_sizes(tokens: &Vec<Vec<Token>>) -> (r: Vec<usize>)
    ensures
        forall|c: int|
            0 <= c < tokens@.len() ==> (#[trigger] tokens@[c])@.len() <= r@.len(),
        forall|i: int| 0 <= i < r@.len() ==> #[trigger] r@[i] == diversity(rows(tokens@), i),
{
    let mut width: usize = 0;
    let mut c: usize = 0;
    while c < tokens.len()
        invariant
            c <= tokens@.len(),
            forall|j: int| 0 <= j < c ==> (#[trigger] tokens@[j])@.len() <= width,
        decreases tokens@.len() - c,
    {
        if tokens[c].len() > width {
            width = tokens[c].len();
        }
        c += 1;
    }
    let mut out: Vec<usize> = Vec::new();
    let mut i: usize = 0;
    while i < width
        invariant
            i <= width,
            out@.len() == i,
            forall|j: int| 0 <= j < i ==> #[trigger] out@[j] == diversity(rows(tokens@), j),
        decreases width - i,
    {
        let d = distinct_fields(&column_fields(tokens, i));
        assert(field_models(d@).len() == d@.len());
        out.push(d.len());
        i += 1;
    }
    out
}

/// The integers of `v`.
pub open spec fn ints(v: Seq<usize>) -> Seq<int> {
    Seq::new(v.len(), |i: int| v[i] as int)
}

/// The slots at which `f` stands, one for each time that it occurs.
fn find_slots(tokens: &Vec<Vec<Token>>, f: &Field) -> (r: Vec<usize>)
    ensures
        ints(r@) == slots_of(rows(tokens@), f@),
        forall|k: int|
            0 <= k < r@.len() ==> exists|c: int|
                0 <= c < tokens@.len() && #[trigger] r@[k] < (#[trigger] tokens@[c])@.len(),
{
    let ghost all = rows(tokens@);
    let mut out: Vec<usize> = Vec::new();
    let mut i: usize = 0;
    assert(ints(out@) =~= slots_of(all.take(0), f@));
    while i < tokens.len()
        invariant
            all == rows(tokens@),
            i <= tokens@.len(),
            ints(out@) == slots_of(all.take(i as int), f@),
            forall|k: int|
                0 <= k < out@.len() ==> exists|c: int|
                    0 <= c < tokens@.len() && #[trigger] out@[k] < (#[trigger] tokens@[c])@.len(),
        decreases tokens@.len() - i,
    {
        let ghost base = ints(out@);
        let ghost row = all[i as int];
        let mut k: usize = 0;
        assert(base + slots_in(row.take(0), f@) =~= base);
        while k < tokens[i].len()
            invariant
                all == rows(tokens@),
                i < tokens@.len(),
                row == all[i as int],
                k <= tokens@[i as int]@.len(),
                ints(out@) == base + slots_in(row.take(k as int), f@),
                forall|k: int|
                    0 <= k < out@.len() ==> exists|c: int|
                        0 <= c < tokens@.len() && #[trigger] out@[k] < (
                        #[trigger] tokens@[c])@.len(),
            decreases tokens@[i as int]@.len() - k,
        {
            proof {
                assert(row.take(k + 1).drop_last() =~= row.take(k as int));
                assert(row.take(k + 1).last() == tokens@[i as int]@[k as int]@);
            }
            let ghost before = ints(out@);
            let ghost was = out@;
            if tokens[i][k].field.same(f) {
                out.push(k);
                proof {
                    assert(ints(out@) =~= before.push(k as int));
                    assert forall|m: int| 0 <= m < out@.len() implies exists|c: int|
                        0 <= c < tokens@.len() && #[trigger] out@[m] < (
                        #[trigger] tokens@[c])@.len() by {
                        if m < was.len() {
                            assert(out@[m] == was[m]);
                        } else {
                            assert(out@[m] < tokens@[i as int]@.len());
                        }
                    }
                }
            }
            assert(ints(out@) =~= base + slots_in(row.take(k + 1), f@));
            k += 1;
        }
        proof {
            assert(row.take(k as int) =~= row);
            assert(all.take(i + 1).drop_last() =~= all.take(i as int));
            assert(all.take(i + 1).last() == row);
        }
        i += 1;
    }
    assert(all.take(i as int) =~= all);
    out
}

/// Of these slots the one with the most different fields, the lowest of those.
fn pick_slot(tokens: &Vec<Vec<Token>>, sizes: &Vec<usize>, slots: &Vec<usize>) -> (r: Option<usize>)
    requires
        forall|i: int|
            0 <= i < sizes@.len() ==> #[trigger] sizes@[i] == diversity(rows(tokens@), i),
        forall|k: int| 0 <= k < slots@.len() ==> #[trigger] slots@[k] < sizes@.len(),
    ensures
        match r {
            Some(b) => top_slot(rows(tokens@), ints(slots@)) == Some(b as int) && b < sizes@.len(),
            None => top_slot(rows(tokens@), ints(slots@)) is None,
        },
{
    let ghost all = ints(slots@);
    let mut best: Option<usize> = None;
    let mut i: usize = 0;
    while i < slots.len()
        invariant
            all == ints(slots@),
            forall|i: int|
                0 <= i < sizes@.len() ==> #[trigger] sizes@[i] == diversity(rows(tokens@), i),
            forall|k: int| 0 <= k < slots@.len() ==> #[trigger] slots@[k] < sizes@.len(),
            i <= slots@.len(),
            match best {
                Some(b) => top_slot(rows(tokens@), all.take(i as int)) == Some(b as int) && b
                    < sizes@.len(),
                None => top_slot(rows(tokens@), all.take(i as int)) is None,
            },
        decreases slots@.len() - i,
    {
        let x = slots[i];
        proof {
            assert(all.take(i + 1).drop_last() =~= all.take(i as int));
            assert(all.take(i + 1).last() == x);
        }
        let keep = match best {
            Some(b) => sizes[b] > sizes[x] || (sizes[b] == sizes[x] && b <= x),
            None => false,
        };
        if !keep {
            best = Some(x);
        }
        i += 1;
    }
    assert(all.take(i as int) =~= all);
    best
}

/// The candidates of the two sides, best first.
pub fn cross_side_candidates(video: &Vec<Vec<Token>>, sub: &Vec<Vec<Token>>) -> (r: Vec<Candidate>)
    ensures
        models(r@) == candidates(rows(video@), rows(sub@)),
{
    let ghost v = rows(video@);
    let ghost s = rows(sub@);
    let video_sizes = slot_sizes(video);
    let sub_sizes = slot_sizes(sub);
    let fields = distinct_fields(&flat_fields(video));
    let ghost all = field_models(fields@);
    let mut out: Vec<Candidate> = Vec::new();
    let mut i: usize = 0;
    assert(models(out@) =~= candidates_among(v, s, all.take(0)));
    while i < fields.len()
        invariant
            v == rows(video@),
            s == rows(sub@),
            all == field_models(fields@),
            forall|c: int|
                0 <= c < video@.len() ==> (#[trigger] video@[c])@.len() <= video_sizes@.len(),
            forall|c: int|
                0 <= c < sub@.len() ==> (#[trigger] sub@[c])@.len() <= sub_sizes@.len(),
            forall|i: int|
                0 <= i < video_sizes@.len() ==> #[trigger] video_sizes@[i] == diversity(v, i),
            forall|i: int|
                0 <= i < sub_sizes@.len() ==> #[trigger] sub_sizes@[i] == diversity(s, i),
            i <= fields@.len(),
            models(out@) == candidates_among(v, s, all.take(i as int)),
        decreases fields@.len() - i,
    {
        let ghost before = models(out@);
        proof {
            assert(all.take(i + 1).drop_last() =~= all.take(i as int));
            assert(all.take(i + 1).last() == fields@[i as int]@);
        }
        let vs = find_slots(video, &fields[i]);
        let ss = find_slots(sub, &fields[i]);
        assert(ints(vs@).len() == vs@.len());
        assert(ints(ss@).len() == ss@.len());
        let a = pick_slot(video, &video_sizes, &vs);
        let b = pick_slot(sub, &sub_sizes, &ss);
        if let (Some(a), Some(b)) = (a, b) {
            if video_sizes[a] >= 2 && sub_sizes[b] >= 2 {
                let c = Candidate {
                    field: fields[i].clone(),
                    video_slot: a,
                    sub_slot: b,
                    diversity: video_sizes[a] as u128 + sub_sizes[b] as u128,
                    occurrences: vs.len() as u128 + ss.len() as u128,
                };
                assert(candidate_for(v, s, fields@[i as int]@) == Some(c@));
                out.push(c);
                assert(models(out@) =~= before.push(c@));
            }
        }
        i += 1;
    }
    assert(all.take(i as int) =~= all);
    sort_models(
        out,
        ranks_before,
        Ghost(|a: CandidateModel, b: CandidateModel| ranks(a, b)),
    )
}

/// Whether `a` ranks before `b` or level with it.
fn ranks_before(a: &Candidate, b: &Candidate) -> (r: bool)
    ensures
        r == ranks(a@, b@),
{
    let pa = kind_priority(a.field.kind);
    let pb = kind_priority(b.field.kind);
    let la = a.field.text.as_str().len();
    let lb = b.field.text.as_str().len();
    if pa != pb {
        pa > pb
    } else if a.diversity != b.diversity {
        a.diversity > b.diversity
    } else if a.occurrences != b.occurrences {
        a.occurrences < b.occurrences
    } else if la != lb {
        la < lb
    } else {
        proof {
            lemma_lex_total(a.field.text@, b.field.text@);
        }
        !str_before(b.field.text.as_str(), a.field.text.as_str())
    }
}

/// How many keys of `v` are `key`.
fn count_key(v: &Vec<Option<EpisodeKey>>, key: &EpisodeKey) -> (r: usize)
    ensures
        r == times(opt_keys(v@), key@),
        r <= v@.len(),
{
    let ghost all = opt_keys(v@);
    let ghost p = |k: Option<KeyModel>| k == Some(key@);
    let mut n: usize = 0;
    let mut i: usize = 0;
    while i < v.len()
        invariant
            all == opt_keys(v@),
            p == (|k: Option<KeyModel>| k == Some(key@)),
            i <= v@.len(),
            n <= i,
            n == count_of(all.take(i as int), p),
        decreases v@.len() - i,
    {
        proof {
            assert(all.take(i + 1).drop_last() =~= all.take(i as int));
            assert(all.take(i + 1).last() == opt_key(v@[i as int]));
        }
        if let Some(k) = &v[i] {
            if k.same(key) {
                n += 1;
            }
        }
        i += 1;
    }
    assert(all.take(i as int) =~= all);
    n
}

/// How many pairs of a key of `a` and a key of `b` are the same key, and how many
/// pairs there are.
pub fn alignment_score(a: &Vec<Option<EpisodeKey>>, b: &Vec<Option<EpisodeKey>>) -> (r: (
    u128,
    u128,
))
    ensures
        r.0 == matches_of(opt_keys(a@), opt_keys(b@)),
        r.1 == a@.len() * b@.len(),
{
    let ghost ka = opt_keys(a@);
    let ghost kb = opt_keys(b@);
    let height = a.len();
    let width = b.len() as u128;
    let mut matches: u128 = 0;
    let mut pairs: u128 = 0;
    let mut i: usize = 0;
    while i < height
        invariant
            height == a@.len(),
            ka == opt_keys(a@),
            kb == opt_keys(b@),
            width == b@.len(),
            width <= usize::MAX,
            i <= a@.len(),
            pairs == i * width,
            matches <= pairs,
            matches == matches_of(ka.take(i as int), kb),
        decreases a@.len() - i,
    {
        proof {
            assert(ka.take(i + 1).drop_last() =~= ka.take(i as int));
            assert(ka.take(i + 1).last() == opt_key(a@[i as int]));
            assert(pairs + width == (i + 1) * width) by (nonlinear_arith)
                requires
                    pairs == i * width,
            ;
            assert((i + 1) * width <= usize::MAX * usize::MAX) by (nonlinear_arith)
                requires
                    i + 1 <= usize::MAX,
                    0 <= width <= usize::MAX,
            ;
            assert(usize::MAX * usize::MAX <= u128::MAX) by (nonlinear_arith)
                requires
                    0 <= usize::MAX <= 0xffff_ffff_ffff_ffff,
            ;
        }
        if let Some(k) = &a[i] {
            matches = matches + count_key(b, k) as u128;
        }
        pairs = pairs + width;
        i += 1;
    }
    assert(ka.take(i as int) =~= ka);
    (matches, pairs)
}

/// The place of the first of the best scores.
pub fn best_score(scores: &Vec<SlotScore>) -> (r: Option<usize>)
    ensures
        match r {
            Some(k) => k < scores@.len() && winner(models(scores@)) == Some(scores@[k as int]@),
            None => winner(models(scores@)) is None,
        },
{
    let ghost all = models(scores@);
    let mut best: Option<usize> = None;
    let mut i: usize = 0;
    while i < scores.len()
        invariant
            all == models(scores@),
            i <= scores@.len(),
            match best {
                Some(k) => k < i && winner(all.take(i as int)) == Some(scores@[k as int]@),
                None => winner(all.take(i as int)) is None,
            },
        decreases scores@.len() - i,
    {
        proof {
            assert(all.take(i + 1).drop_last() =~= all.take(i as int));
            assert(all.take(i + 1).last() == scores@[i as int]@);
        }
        let keep = match best {
            Some(k) => !better(&scores[i], &scores[k]),
            None => false,
        };
        if !keep {
            best = Some(i);
        }
        i += 1;
    }
    assert(all.take(i as int) =~= all);
    best
}

/// Whether `a` is a better score than `b`.
fn better(a: &SlotScore, b: &SlotScore) -> (r: bool)
    ensures
        r == beats(a@, b@),
{
    if a.diversity != b.diversity {
        a.diversity > b.diversity
    } else if a.matches != b.matches {
        a.matches > b.matches
    } else if a.pairs != b.pairs {
        a.pairs > b.pairs
    } else {
        a.occurrences < b.occurrences
    }
}

/// The slots at which videos and subtitles line up best, or `None` where no slot
/// that varies on both sides has a field in common.
pub fn best_slot_pair(video: &Vec<Vec<Token>>, sub: &Vec<Vec<Token>>) -> (r: Option<(usize, usize)>)
    ensures
        match r {
            Some(p) => aligned(rows(video@), rows(sub@)) == Some((p.0 as int, p.1 as int)),
            None => aligned(rows(video@), rows(sub@)) is None,
        },
{
    let ghost v = rows(video@);
    let ghost s = rows(sub@);
    let c = cross_side_candidates(video, sub);
    let ghost all = models(c@);
    let mut scores: Vec<SlotScore> = Vec::new();
    let mut i: usize = 0;
    while i < c.len()
        invariant
            v == rows(video@),
            s == rows(sub@),
            all == models(c@),
            i <= c@.len(),
            scores@.len() == i,
            forall|j: int| 0 <= j < i ==> (#[trigger] scores@[j])@ == score_for(v, s, all[j]),
        decreases c@.len() - i,
    {
        let a = column_keys(video, c[i].video_slot);
        let b = column_keys(sub, c[i].sub_slot);
        assert(opt_keys(a@).len() == a@.len());
        assert(opt_keys(b@).len() == b@.len());
        let (matches, pairs) = alignment_score(&a, &b);
        scores.push(
            SlotScore {
                video_slot: c[i].video_slot,
                sub_slot: c[i].sub_slot,
                diversity: c[i].diversity,
                matches,
                pairs,
                occurrences: c[i].occurrences,
            },
        );
        i += 1;
    }
    assert(models(scores@) =~= scores_for(v, s, candidates(v, s)));
    match best_score(&scores) {
        Some(k) => Some((scores[k].video_slot, scores[k].sub_slot)),
        None => None,
    }
}

/// The text at `slot` of each stem, absent where the stem is too short.
pub open spec fn slot_texts(rows: Seq<Seq<TokenModel>>, slot: int) -> Seq<Option<Seq<char>>> {
    Seq::new(
        rows.len(),
        |i: int|
            if 0 <= slot && rows[i].len() > slot {
                Some(rows[i][slot].field.text)
            } else {
                None
            },
    )
}

/// The text at `slot` of each stem, absent where the stem is too short.
pub fn texts_at_slot(tokens: &Vec<Vec<Token>>, slot: usize) -> (r: Vec<RawKey>)
    ensures
        raw_views(r@) == slot_texts(rows(tokens@), slot as int),
{
    let ghost all = rows(tokens@);
    let mut out: Vec<RawKey> = Vec::new();
    let mut i: usize = 0;
    while i < tokens.len()
        invariant
            all == rows(tokens@),
            i <= tokens@.len(),
            out@.len() == i,
            forall|j: int| 0 <= j < i ==> (#[trigger] out@[j])@ == slot_texts(all, slot as int)[j],
        decreases tokens@.len() - i,
    {
        assert(all[i as int] == models(tokens@[i as int]@));
        if slot < tokens[i].len() {
            out.push(RawKey(Some(copy_of(tokens[i][slot].field.text.as_str()))));
        } else {
            out.push(RawKey(None));
        }
        i += 1;
    }
    assert(raw_views(out@) =~= slot_texts(all, slot as int));
    out
}

/// The tokens that these fields make.
pub open spec fn tokens_of(fields: Seq<FieldModel>) -> Seq<TokenModel> {
    Seq::new(
        fields.len(),
        |i: int| TokenModel { field: fields[i], key: key_of(Some(fields[i].text)) },
    )
}

/// The tokens of each stem.
pub open spec fn token_rows(stems: Seq<Seq<char>>) -> Seq<Seq<TokenModel>> {
    Seq::new(stems.len(), |i: int| tokens_of(all_fields(stems)[i]))
}

/// The tokens that these fields make.
fn tokenize(patterns: &Patterns, fields: &Vec<Field>) -> (r: Vec<Token>)
    requires
        patterns.wf(),
    ensures
        models(r@) == tokens_of(field_models(fields@)),
{
    let ghost all = field_models(fields@);
    let mut out: Vec<Token> = Vec::new();
    let mut i: usize = 0;
    while i < fields.len()
        invariant
            patterns.wf(),
            all == field_models(fields@),
            i <= fields@.len(),
            out@.len() == i,
            forall|j: int| 0 <= j < i ==> (#[trigger] out@[j])@ == tokens_of(all)[j],
        decreases fields@.len() - i,
    {
        let key = normalize_with(patterns, &Some(copy_of(fields[i].text.as_str())));
        out.push(Token { field: fields[i].clone(), key });
        i += 1;
    }
    assert(models(out@) =~= tokens_of(all));
    out
}

/// The tokens of each stem.
fn tokenize_all(patterns: &Patterns, stems: &Vec<String>) -> (r: Vec<Vec<Token>>)
    requires
        patterns.wf(),
    ensures
        rows(r@) == token_rows(views(stems@)),
{
    let fields = split_all(patterns, stems);
    let ghost all = all_fields(views(stems@));
    let mut out: Vec<Vec<Token>> = Vec::new();
    let mut i: usize = 0;
    while i < fields.len()
        invariant
            patterns.wf(),
            stem_models(fields@) == all,
            i <= fields@.len(),
            out@.len() == i,
            forall|j: int| 0 <= j < i ==> models((#[trigger] out@[j])@) == tokens_of(all[j]),
        decreases fields@.len() - i,
    {
        assert(stem_models(fields@)[i as int] == field_models(fields@[i as int]@));
        out.push(tokenize(patterns, &fields[i]));
        i += 1;
    }
    assert(rows(out@) =~= token_rows(views(stems@)));
    out
}

/// The raw keys of videos and subtitles: the texts at the slots that line up, or
/// else the keys of each side on its own.
pub open spec fn cross_keys(videos: Seq<Seq<char>>, subtitles: Seq<Seq<char>>) -> (
    Seq<Option<Seq<char>>>,
    Seq<Option<Seq<char>>>,
) {
    let v = comparables(videos);
    let s = comparables(subtitles);
    match aligned(token_rows(v), token_rows(s)) {
        Some((a, b)) => (slot_texts(token_rows(v), a), slot_texts(token_rows(s), b)),
        None => (raw_keys(v), raw_keys(s)),
    }
}

/// Each stem of either side has one key, which may be absent. Where the sides have no
/// candidate in common, each side is read on its own.
pub proof fn law_cross_keys(videos: Seq<Seq<char>>, subtitles: Seq<Seq<char>>)
    ensures
        cross_keys(videos, subtitles).0.len() == videos.len(),
        cross_keys(videos, subtitles).1.len() == subtitles.len(),
        candidates(token_rows(comparables(videos)), token_rows(comparables(subtitles))).len() == 0
            ==> cross_keys(videos, subtitles) == (
            raw_keys(comparables(videos)),
            raw_keys(comparables(subtitles)),
        ),
{
    law_one_key_each(comparables(videos));
    law_one_key_each(comparables(subtitles));
}

/// The raw keys of videos and subtitles, with patterns that are compiled already.
pub fn cross_with(patterns: &Patterns, videos: &Vec<String>, subtitles: &Vec<String>) -> (r: (
    Vec<RawKey>,
    Vec<RawKey>,
))
    requires
        patterns.wf(),
    ensures
        (raw_views(r.0@), raw_views(r.1@)) == cross_keys(views(videos@), views(subtitles@)),
{
    let v = normalize_stems(videos);
    let s = normalize_stems(subtitles);
    let video_tokens = tokenize_all(patterns, &v);
    let sub_tokens = tokenize_all(patterns, &s);
    match best_slot_pair(&video_tokens, &sub_tokens) {
        Some((a, b)) => (texts_at_slot(&video_tokens, a), texts_at_slot(&sub_tokens, b)),
        None => (extract_with(patterns, &v), extract_with(patterns, &s)),
    }
}

/// The raw keys of videos and subtitles, one for each stem. Both sides are read
/// together, so that stems with different noise around their numbers still pair.
pub fn extract_keys_cross(videos: &[&str], subtitles: &[&str]) -> (r: (Vec<RawKey>, Vec<RawKey>))
    ensures
        (raw_views(r.0@), raw_views(r.1@)) == cross_keys(
            str_views(videos@),
            str_views(subtitles@),
        ),
{
    cross_with(&Patterns::new(), &owned(videos), &owned(subtitles))
}

} // verus!
