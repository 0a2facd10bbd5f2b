//! What the variables of a template hold, and what a template makes of them.

use vstd::prelude::*;
use vstd::string::*;

use crate::language::word_place;
use crate::naming::{
    alias_model, aliases, best_hit, filled, first_index, hit_of, law_best_hit, lemma_first_index,
    pieces_of, rendered, var_at, wins, Fill, MappingModel, NamingModel, PieceModel,
};
use crate::text::{
    law_trim, lemma_lead_is, lemma_tail, tail, trim_both, trim_end, trim_start, CharClass,
};

verus! {

// ---------------------------------------------------------------------------
// Variables
// ---------------------------------------------------------------------------
/// The mapping has no empty part, and its token stands in the stem between boundaries.
pub open spec fn applies(m: MappingModel, stem: Seq<char>, case_sensitive: bool) -> bool {
    &&& m.token.len() > 0
    &&& m.value.len() > 0
    &&& m.var.len() > 0
    &&& word_place(stem, m.token, case_sensitive) is Some
}

/// Mapping `i` is the one that fills `var`: it applies, no mapping for `var` that applies has
/// a longer token, none with a token as long stands further to the front, and none that is
/// level with it is listed before it.
pub open spec fn chosen(
    mappings: Seq<MappingModel>,
    stem: Seq<char>,
    case_sensitive: bool,
    var: Seq<char>,
    i: int,
) -> bool {
    &&& 0 <= i < mappings.len()
    &&& mappings[i].var == var
    &&& applies(mappings[i], stem, case_sensitive)
    &&& forall|j: int|
        0 <= j < mappings.len() && (#[trigger] mappings[j]).var == var && applies(
            mappings[j],
            stem,
            case_sensitive,
        ) ==> {
            let mine = word_place(stem, mappings[i].token, case_sensitive)->0;
            let its = word_place(stem, mappings[j].token, case_sensitive)->0;
            ||| mappings[j].token.len() < mappings[i].token.len()
            ||| mappings[j].token.len() == mappings[i].token.len() && its > mine
            ||| mappings[j].token.len() == mappings[i].token.len() && its == mine && j >= i
        }
}

proof fn lemma_chosen_is_best(
    mappings: Seq<MappingModel>,
    stem: Seq<char>,
    case_sensitive: bool,
    var: Seq<char>,
    i: int,
)
    requires
        chosen(mappings, stem, case_sensitive, var, i),
    ensures
        best_hit(mappings, stem, case_sensitive, var) matches Some(h) && h.value
            == mappings[i].value && h.len == mappings[i].token.len() && Some(h.place)
            == word_place(stem, mappings[i].token, case_sensitive),
{
    law_best_hit(mappings, stem, case_sensitive, var);
    assert(hit_of(mappings[i], stem, case_sensitive) is Some);
    let b = best_hit(mappings, stem, case_sensitive, var)->0;
    let k = choose|k: int| #[trigger] wins(mappings, stem, case_sensitive, var, k, b);
    assert(applies(mappings[k], stem, case_sensitive));
    assert(mappings[k].var == var);
}

/// A mapping that applies fills its variable, with the value of the one that is chosen,
/// whatever aliases stand in the stem and whether or not they are used.
pub proof fn law_mapping_fills(naming: NamingModel, stem: Seq<char>, var: Seq<char>, i: int)
    requires
        chosen(naming.mappings, stem, naming.case_sensitive, var, i),
    ensures
        naming.vars(stem).contains_key(var),
        naming.vars(stem)[var] == naming.mappings[i].value,
{
    lemma_chosen_is_best(naming.mappings, stem, naming.case_sensitive, var, i);
}

/// Where the best hit of the mappings for a variable is `h`, the variable holds the value
/// of `h`, whatever aliases stand in the stem and whether or not they are used.
pub proof fn law_mapping_first(naming: NamingModel, stem: Seq<char>, var: Seq<char>)
    ensures
        best_hit(naming.mappings, stem, naming.case_sensitive, var) matches Some(h)
            ==> naming.vars(stem).contains_key(var) && naming.vars(stem)[var] == h.value,
{
}

/// Where a mapping for the variable applies, there is one that is chosen, so that the
/// variable has a value.
pub proof fn law_mapping_found(
    mappings: Seq<MappingModel>,
    stem: Seq<char>,
    case_sensitive: bool,
    var: Seq<char>,
    j: int,
)
    requires
        0 <= j < mappings.len(),
        mappings[j].var == var,
        applies(mappings[j], stem, case_sensitive),
    ensures
        exists|i: int| #[trigger] chosen(mappings, stem, case_sensitive, var, i),
{
    law_best_hit(mappings, stem, case_sensitive, var);
    assert(hit_of(mappings[j], stem, case_sensitive) is Some);
    let b = best_hit(mappings, stem, case_sensitive, var)->0;
    let k = choose|k: int| #[trigger] wins(mappings, stem, case_sensitive, var, k, b);
    assert forall|l: int|
        0 <= l < mappings.len() && (#[trigger] mappings[l]).var == var && applies(
            mappings[l],
            stem,
            case_sensitive,
        ) implies ({
        let mine = word_place(stem, mappings[k].token, case_sensitive)->0;
        let its = word_place(stem, mappings[l].token, case_sensitive)->0;
        ||| mappings[l].token.len() < mappings[k].token.len()
        ||| mappings[l].token.len() == mappings[k].token.len() && its > mine
        ||| mappings[l].token.len() == mappings[k].token.len() && its == mine && l >= k
    }) by {
        assert(hit_of(mappings[l], stem, case_sensitive) is Some);
    }
    assert(chosen(mappings, stem, case_sensitive, var, k));
}

/// Where no mapping for a variable applies, it has a value only if it is `lang`, aliases are
/// used and one stands in the stem: the value of the alias that is chosen.
pub proof fn law_alias_fills(naming: NamingModel, stem: Seq<char>, var: Seq<char>)
    requires
        forall|j: int|
            0 <= j < naming.mappings.len() && (#[trigger] naming.mappings[j]).var == var
                ==> !applies(naming.mappings[j], stem, naming.case_sensitive),
    ensures
        naming.vars(stem).contains_key(var) <==> var == "lang"@ && naming.auto_fill_lang && exists|
            i: int,
        |
            #[trigger] chosen(aliases(), stem, naming.case_sensitive, var, i),
        forall|i: int|
            var == "lang"@ && naming.auto_fill_lang && #[trigger] chosen(
                aliases(),
                stem,
                naming.case_sensitive,
                var,
                i,
            ) ==> naming.vars(stem)[var] == aliases()[i].value,
{
    let cs = naming.case_sensitive;
    law_best_hit(naming.mappings, stem, cs, var);
    if let Some(b) = best_hit(naming.mappings, stem, cs, var) {
        let k = choose|k: int| #[trigger] wins(naming.mappings, stem, cs, var, k, b);
        assert(applies(naming.mappings[k], stem, cs));
        assert(naming.mappings[k].var == var);
    }
    law_best_hit(aliases(), stem, cs, var);
    if let Some(b) = best_hit(aliases(), stem, cs, var) {
        let k = choose|k: int| #[trigger] wins(aliases(), stem, cs, var, k, b);
        assert(applies(aliases()[k], stem, cs));
        law_mapping_found(aliases(), stem, cs, var, k);
    }
    assert forall|i: int| #[trigger] chosen(aliases(), stem, cs, var, i) implies best_hit(
        aliases(),
        stem,
        cs,
        var,
    ) matches Some(h) && h.value == aliases()[i].value by {
        lemma_chosen_is_best(aliases(), stem, cs, var, i);
    }
}

/// The tokens that stand for each language.
pub proof fn law_alias_languages(token: Seq<char>)
    ensures
        aliases().contains(alias_model(token, "zh-Hans"@)) <==> (token == "chs"@ || token == "sc"@
            || token == "gb"@ || token == "简体"@ || token == "简"@ || token == "jpsc"@),
        aliases().contains(alias_model(token, "zh-Hant"@)) <==> (token == "cht"@ || token == "tc"@
            || token == "tw"@ || token == "繁體"@ || token == "繁"@ || token == "jptc"@),
        aliases().contains(alias_model(token, "ja"@)) <==> (token == "jp"@ || token == "jpn"@),
        aliases().contains(alias_model(token, "en"@)) <==> (token == "eng"@ || token == "en"@),
        forall|i: int|
            0 <= i < aliases().len() ==> (#[trigger] aliases()[i]).var == "lang"@ && (
            aliases()[i].value == "zh-Hans"@ || aliases()[i].value == "zh-Hant"@
                || aliases()[i].value == "ja"@ || aliases()[i].value == "en"@),
{
    reveal_strlit("zh-Hans");
    reveal_strlit("zh-Hant");
    reveal_strlit("ja");
    reveal_strlit("en");
    assert("zh-Hans"@[6] == 's' && "zh-Hant"@[6] == 't' && "zh-Hant"@.len() == 7);
    assert("ja"@[0] == 'j' && "en"@[0] == 'e' && "ja"@.len() == 2 && "en"@.len() == 2);
    let a = aliases();
    assert(a.len() == 16);
    assert(a[0].token == "chs"@ && a[2].token == "sc"@ && a[8].token == "gb"@ && a[10].token
        == "简体"@ && a[12].token == "简"@ && a[14].token == "jpsc"@);
    assert(a[1].token == "cht"@ && a[3].token == "tc"@ && a[9].token == "tw"@ && a[11].token
        == "繁體"@ && a[13].token == "繁"@ && a[15].token == "jptc"@);
    assert(a[4].token == "jp"@ && a[5].token == "jpn"@ && a[6].token == "eng"@ && a[7].token
        == "en"@);
}

// ---------------------------------------------------------------------------
// Templates
// ---------------------------------------------------------------------------
/// `${`, a name without `}` and `}` are a variable of that name. What follows is read on.
pub proof fn law_template_var(name: Seq<char>, rest: Seq<char>)
    requires
        !name.contains('}'),
    ensures
        pieces_of(seq!['$', '{'] + name + seq!['}'] + rest) == seq![PieceModel::Var(name)]
            + pieces_of(rest),
{
    let t = seq!['$', '{'] + name + seq!['}'] + rest;
    let u = t.skip(2);
    lemma_first_index(u, '}');
    assert(u[name.len() as int] == '}');
    assert forall|j: int| 0 <= j < name.len() implies u[j] != '}' by {
        assert(u[j] == name[j]);
        assert(name.contains(name[j]));
    }
    assert(first_index(u, '}') == Some(name.len() as int));
    assert(t.subrange(2, 2 + name.len() as int) =~= name);
    assert(var_at(t) == Some(name));
    assert(t.skip(name.len() as int + 3) =~= rest);
}

/// A character that does not begin a variable stands for itself. What follows is read on.
pub proof fn law_template_text(c: char, rest: Seq<char>)
    requires
        c == '$' && rest.len() > 0 && rest[0] == '{' ==> !rest.contains('}'),
    ensures
        pieces_of(seq![c] + rest) == seq![PieceModel::Text(seq![c])] + pieces_of(rest),
        pieces_of(Seq::empty()) == Seq::<PieceModel>::empty(),
{
    let t = seq![c] + rest;
    assert(t.drop_first() =~= rest);
    assert(t.take(1) =~= seq![c]);
    assert(var_at(t) is None) by {
        if t.len() >= 2 && t[0] == '$' && t[1] == '{' {
            assert(rest[0] == '{');
            let u = t.skip(2);
            lemma_first_index(u, '}');
            if let Some(n) = first_index(u, '}') {
                assert(rest[n + 1] == u[n]);
            }
        }
    }
}

/// Text is taken over as it is.
pub proof fn law_fill_text(pieces: Seq<PieceModel>, text: Seq<char>, fill: Fill)
    ensures
        filled(pieces.push(PieceModel::Text(text)), fill) == filled(pieces, fill) + text,
        filled(Seq::empty(), fill) == Seq::<char>::empty(),
{
    assert(pieces.push(PieceModel::Text(text)).drop_last() =~= pieces);
}

/// A variable adds its value. One without a value takes away the separators that stand at
/// the end, and nothing else.
pub proof fn law_fill_var(pieces: Seq<PieceModel>, name: Seq<char>, fill: Fill)
    ensures
        ({
            let before = filled(pieces, fill);
            let after = filled(pieces.push(PieceModel::Var(name)), fill);
            &&& fill.value(name).len() > 0 ==> after == before + fill.value(name)
            &&& fill.value(name).len() == 0 ==> {
                &&& after.len() <= before.len()
                &&& after == before.take(after.len() as int)
                &&& forall|i: int|
                    after.len() <= i < before.len() ==> (#[trigger] before[i] == '.' || before[i]
                        == '-' || before[i] == '_')
                &&& after.len() > 0 ==> after.last() != '.' && after.last() != '-' && after.last()
                    != '_'
            }
        }),
{
    assert(pieces.push(PieceModel::Var(name)).drop_last() =~= pieces);
    let before = filled(pieces, fill);
    lemma_tail(before, CharClass::Separator);
    assert forall|i: int|
        before.len() - tail(before, CharClass::Separator) <= i < before.len() implies (
    #[trigger] before[i] == '.' || before[i] == '-' || before[i] == '_') by {
        assert(CharClass::Separator.has(before[i]));
    }
}

/// `video` and `ext` are the stem of the video and the extension of the subtitle, whatever
/// the mappings say. Any other variable holds what it was given, or nothing.
pub proof fn law_fill_value(fill: Fill, name: Seq<char>)
    ensures
        fill.value("video"@) == fill.video,
        fill.value("ext"@) == fill.ext,
        name != "video"@ && name != "ext"@ && fill.vars.contains_key(name) ==> fill.value(name)
            == fill.vars[name],
        name != "video"@ && name != "ext"@ && !fill.vars.contains_key(name) ==> fill.value(
            name,
        ).len() == 0,
{
    reveal_strlit("video");
    reveal_strlit("ext");
    assert("video"@.len() == 5 && "ext"@.len() == 3);
}

/// A rendered name is the filled template, without the separators at its ends and with
/// everything between them.
pub proof fn law_rendered(template: Seq<char>, fill: Fill)
    ensures
        ({
            let all = filled(pieces_of(template), fill);
            let r = rendered(template, fill);
            exists|a: int, b: int|
                0 <= a <= b <= all.len() && r == #[trigger] all.subrange(a, b) && forall|i: int|
                    (0 <= i < a || b <= i < all.len()) ==> (#[trigger] all[i] == '.' || all[i]
                        == '-' || all[i] == '_')
        }),
        rendered(template, fill).len() > 0 ==> {
            let r = rendered(template, fill);
            &&& r[0] != '.' && r[0] != '-' && r[0] != '_'
            &&& r.last() != '.' && r.last() != '-' && r.last() != '_'
        },
{
    let k = CharClass::Separator;
    let all = filled(pieces_of(template), fill);
    law_trim(all, k);
    let (a, b) = choose|a: int, b: int|
        0 <= a <= b <= all.len() && trim_both(all, k) == #[trigger] all.subrange(a, b) && forall|
            i: int,
        |
            (0 <= i < a || b <= i < all.len()) ==> k.has(#[trigger] all[i]);
    assert forall|i: int| (0 <= i < a || b <= i < all.len()) implies (#[trigger] all[i] == '.'
        || all[i] == '-' || all[i] == '_') by {
        assert(k.has(all[i]));
    }
    assert(rendered(template, fill) == all.subrange(a, b));
}

/// A template of nothing but white space is the default one, and white space around any
/// other does not count.
pub proof fn law_effective(naming: NamingModel)
    ensures
        (forall|i: int|
            0 <= i < naming.template.len() ==> CharClass::Space.has(#[trigger] naming.template[i]))
            ==> naming.effective() == "${video}.${ext}"@,
        (exists|i: int|
            0 <= i < naming.template.len() && !CharClass::Space.has(#[trigger] naming.template[i]))
            ==> exists|a: int, b: int|
            0 <= a < b <= naming.template.len() && naming.effective()
                == #[trigger] naming.template.subrange(a, b) && !CharClass::Space.has(
                naming.template[a],
            ) && !CharClass::Space.has(naming.template[b - 1]) && forall|i: int|
                (0 <= i < a || b <= i < naming.template.len()) ==> CharClass::Space.has(
                    #[trigger] naming.template[i],
                ),
{
    let s = naming.template;
    let k = CharClass::Space;
    law_trim(s, k);
    let (a, b) = choose|a: int, b: int|
        0 <= a <= b <= s.len() && trim_both(s, k) == #[trigger] s.subrange(a, b) && forall|i: int|
            (0 <= i < a || b <= i < s.len()) ==> k.has(#[trigger] s[i]);
    let t = trim_both(s, k);
    if forall|i: int| 0 <= i < s.len() ==> k.has(#[trigger] s[i]) {
        if t.len() > 0 {
            assert(t[0] == s[a]);
        }
    } else {
        let i = choose|i: int| 0 <= i < s.len() && !k.has(#[trigger] s[i]);
        assert(a <= i < b);
        assert(t[0] == s[a]);
        assert(t.last() == s[b - 1]);
    }
}

/// The default template makes the stem of the video, a `.` and the extension, where they do
/// not begin and end with separators.
pub proof fn law_default_name(fill: Fill)
    requires
        fill.video.len() > 0,
        fill.ext.len() > 0,
        !CharClass::Separator.has(fill.video[0]),
        !CharClass::Separator.has(fill.ext.last()),
    ensures
        rendered("${video}.${ext}"@, fill) == fill.video + seq!['.'] + fill.ext,
{
    reveal_strlit("${video}.${ext}");
    reveal_strlit("video");
    reveal_strlit("ext");
    let end = seq!['$', '{'] + "ext"@ + seq!['}'] + Seq::<char>::empty();
    let mid = seq!['.'] + end;
    assert("${video}.${ext}"@ =~= seq!['$', '{'] + "video"@ + seq!['}'] + mid);
    assert(!"video"@.contains('}'));
    assert(!"ext"@.contains('}'));
    law_template_var("video"@, mid);
    law_template_text('.', end);
    law_template_var("ext"@, Seq::empty());
    let v = Seq::<PieceModel>::empty().push(PieceModel::Var("video"@));
    let w = v.push(PieceModel::Text(seq!['.']));
    let x = w.push(PieceModel::Var("ext"@));
    assert(pieces_of("${video}.${ext}"@) =~= x);
    law_fill_value(fill, "video"@);
    law_fill_var(Seq::empty(), "video"@, fill);
    law_fill_text(v, seq!['.'], fill);
    law_fill_var(w, "ext"@, fill);
    let all = filled(x, fill);
    assert(all =~= fill.video + seq!['.'] + fill.ext);
    assert(all.last() == fill.ext.last());
    assert(all[0] == fill.video[0]);
    lemma_lead_is(all, CharClass::Separator, 0);
    assert(trim_start(all, CharClass::Separator) =~= all);
    assert(tail(all, CharClass::Separator) == 0);
    assert(trim_end(all, CharClass::Separator) =~= all);
}

} // verus!
