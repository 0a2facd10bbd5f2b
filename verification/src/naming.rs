//! Target names: templates, their variables, and the tokens that fill them.

use vstd::prelude::*;
use vstd::string::*;

use crate::language::{find_boundary_token, word_place};
use crate::matcher::FileEntry;
use crate::pattern::opt_view;
use crate::sorting::models;
use crate::text::{
    chars_of, copy_of, lemma_tail, lemma_trim_both, same_str, string_of, string_of_range, tail,
    trim_both, trim_end, trimmed, CharClass,
};

verus! {

// ---------------------------------------------------------------------------
// Configuration
// ---------------------------------------------------------------------------
/// A token, and the value that it gives a template variable.
#[derive(Debug)]
pub struct TokenMapping {
    /// What has to stand in the stem.
    pub token: String,
    /// The value.
    pub value: String,
    /// The variable.
    pub var: String,
}

/// What a [`TokenMapping`] stands for.
pub struct MappingModel {
    pub token: Seq<char>,
    pub value: Seq<char>,
    pub var: Seq<char>,
}

impl View for TokenMapping {
    type V = MappingModel;

    open spec fn view(&self) -> MappingModel {
        MappingModel { token: self.token@, value: self.value@, var: self.var@ }
    }
}

impl Clone for TokenMapping {
    fn clone(&self) -> (r: Self)
        ensures
            r@ == self@,
    {
        TokenMapping {
            token: copy_of(self.token.as_str()),
            value: copy_of(self.value.as_str()),
            var: copy_of(self.var.as_str()),
        }
    }
}

/// The variable that a mapping fills where it names none.
pub fn default_var() -> (r: String)
    ensures
        r@ == "lang"@,
{
    copy_of("lang")
}

/// How target names are made.
#[derive(Debug)]
pub struct NamingConfig {
    /// The template. The default one is used where this is blank.
    pub template: String,
    /// Whether built-in aliases fill `lang` where no mapping does.
    pub auto_fill_lang: bool,
    /// Whether case matters to tokens.
    pub case_sensitive: bool,
    /// The mappings.
    pub mappings: Vec<TokenMapping>,
}

/// What a [`NamingConfig`] stands for.
pub struct NamingModel {
    pub template: Seq<char>,
    pub auto_fill_lang: bool,
    pub case_sensitive: bool,
    pub mappings: Seq<MappingModel>,
}

impl View for NamingConfig {
    type V = NamingModel;

    open spec fn view(&self) -> NamingModel {
        NamingModel {
            template: self.template@,
            auto_fill_lang: self.auto_fill_lang,
            case_sensitive: self.case_sensitive,
            mappings: models(self.mappings@),
        }
    }
}

impl Clone for NamingConfig {
    fn clone(&self) -> (r: Self)
        ensures
            r@ == self@,
    {
        let mut mappings: Vec<TokenMapping> = Vec::new();
        let mut i: usize = 0;
        while i < self.mappings.len()
            invariant
                i <= self.mappings@.len(),
                mappings@.len() == i,
                forall|j: int| 0 <= j < i ==> (#[trigger] mappings@[j])@ == self.mappings@[j]@,
            decreases self.mappings@.len() - i,
        {
            mappings.push(self.mappings[i].clone());
            i += 1;
        }
        assert(models(mappings@) =~= models(self.mappings@));
        NamingConfig {
            template: copy_of(self.template.as_str()),
            auto_fill_lang: self.auto_fill_lang,
            case_sensitive: self.case_sensitive,
            mappings,
        }
    }
}

impl Default for NamingConfig {
    /// The default template, no mappings.
    fn default() -> (r: Self)
        ensures
            r@ == (NamingModel {
                template: Seq::empty(),
                auto_fill_lang: false,
                case_sensitive: false,
                mappings: Seq::empty(),
            }),
    {
        let r = NamingConfig {
            template: String::new(),
            auto_fill_lang: false,
            case_sensitive: false,
            mappings: Vec::new(),
        };
        assert(r@.mappings =~= Seq::empty());
        r
    }
}

/// The template that is used where none is given.
pub const DEFAULT_TEMPLATE: &'static str = "${video}.${ext}";

// ---------------------------------------------------------------------------
// Variables
// ---------------------------------------------------------------------------
/// The values of variables.
#[derive(Debug)]
pub struct Vars {
    entries: Vec<(String, String)>,
}

/// The values that `entries` give, the last one for each variable.
pub open spec fn entry_map(entries: Seq<(String, String)>) -> Map<Seq<char>, Seq<char>>
    decreases entries.len(),
{
    if entries.len() == 0 {
        Map::empty()
    } else {
        entry_map(entries.drop_last()).insert(entries.last().0@, entries.last().1@)
    }
}

impl View for Vars {
    type V = Map<Seq<char>, Seq<char>>;

    closed spec fn view(&self) -> Map<Seq<char>, Seq<char>> {
        entry_map(self.entries@)
    }
}

impl Vars {
    /// No variables.
    pub fn new() -> (r: Self)
        ensures
            r@ == Map::<Seq<char>, Seq<char>>::empty(),
    {
        Vars { entries: Vec::new() }
    }

    /// Gives a variable a value.
    pub fn insert(&mut self, name: String, value: String)
        ensures
            final(self)@ == old(self)@.insert(name@, value@),
    {
        let ghost before = self.entries@;
        self.entries.push((name, value));
        assert(self.entries@.drop_last() =~= before);
    }

    /// The value of a variable.
    pub fn get(&self, name: &str) -> (r: Option<&String>)
        ensures
            match r {
                Some(v) => self@.contains_key(name@) && v@ == self@[name@],
                None => !self@.contains_key(name@),
            },
    {
        let mut i: usize = self.entries.len();
        assert(self.entries@.take(i as int) =~= self.entries@);
        while i > 0
            invariant
                i <= self.entries@.len(),
                self@.contains_key(name@) == entry_map(self.entries@.take(i as int)).contains_key(
                    name@,
                ),
                self@.contains_key(name@) ==> self@[name@] == entry_map(
                    self.entries@.take(i as int),
                )[name@],
            decreases i,
        {
            proof {
                assert(self.entries@.take(i as int).drop_last() =~= self.entries@.take(i - 1));
                assert(self.entries@.take(i as int).last() == self.entries@[i - 1]);
            }
            if same_str(self.entries[i - 1].0.as_str(), name) {
                return Some(&self.entries[i - 1].1);
            }
            i -= 1;
        }
        None
    }

    /// Whether a variable has a value.
    pub fn contains_key(&self, name: &str) -> (r: bool)
        ensures
            r == self@.contains_key(name@),
    {
        self.get(name).is_some()
    }
}

// ---------------------------------------------------------------------------
// Tokens
// ---------------------------------------------------------------------------
/// Where a mapping was found, and what it gives.
pub struct Hit {
    pub value: Seq<char>,
    pub len: int,
    pub place: int,
}

/// Where `m` is found in `stem`. A mapping with an empty part is never found.
pub open spec fn hit_of(m: MappingModel, stem: Seq<char>, case_sensitive: bool) -> Option<Hit> {
    if m.token.len() == 0 || m.value.len() == 0 || m.var.len() == 0 {
        None
    } else {
        match word_place(stem, m.token, case_sensitive) {
            Some(i) => Some(Hit { value: m.value, len: m.token.len() as int, place: i }),
            None => None,
        }
    }
}

/// A longer token, or one as long that stands further to the front.
pub open spec fn outdoes(a: Hit, b: Hit) -> bool {
    a.len > b.len || (a.len == b.len && a.place < b.place)
}

/// The hit that fills `var`: the longest token, then the one that stands first in the
/// stem, then the one that is listed first.
pub open spec fn best_hit(
    mappings: Seq<MappingModel>,
    stem: Seq<char>,
    case_sensitive: bool,
    var: Seq<char>,
) -> Option<Hit>
    decreases mappings.len(),
{
    if mappings.len() == 0 {
        None
    } else {
        let best = best_hit(mappings.drop_last(), stem, case_sensitive, var);
        let m = mappings.last();
        match (best, hit_of(m, stem, case_sensitive)) {
            (Some(b), Some(h)) => if m.var == var && outdoes(h, b) {
                Some(h)
            } else {
                Some(b)
            },
            (None, Some(h)) => if m.var == var {
                Some(h)
            } else {
                None
            },
            (b, None) => b,
        }
    }
}

/// `b` is the hit of mapping `i`, which is for `var`. It outdoes those of the mappings for
/// `var` that are listed before, and those of the mappings behind do not outdo it.
pub open spec fn wins(
    mappings: Seq<MappingModel>,
    stem: Seq<char>,
    case_sensitive: bool,
    var: Seq<char>,
    i: int,
    b: Hit,
) -> bool {
    &&& 0 <= i < mappings.len()
    &&& mappings[i].var == var
    &&& hit_of(mappings[i], stem, case_sensitive) == Some(b)
    &&& forall|j: int|
        0 <= j < mappings.len() && (#[trigger] mappings[j]).var == var ==> (hit_of(
            mappings[j],
            stem,
            case_sensitive,
        ) matches Some(h) ==> if j < i {
            outdoes(b, h)
        } else {
            !outdoes(h, b)
        })
}

/// The best hit is that of a mapping for the variable, no mapping for it outdoes it, and
/// of those that are level with it the one that is listed first wins. There is none only
/// where no mapping for the variable is found.
pub proof fn law_best_hit(
    mappings: Seq<MappingModel>,
    stem: Seq<char>,
    case_sensitive: bool,
    var: Seq<char>,
)
    ensures
        match best_hit(mappings, stem, case_sensitive, var) {
            Some(b) => exists|i: int| #[trigger]
                wins(mappings, stem, case_sensitive, var, i, b),
            None => forall|i: int|
                0 <= i < mappings.len() && (#[trigger] mappings[i]).var == var ==> hit_of(
                    mappings[i],
                    stem,
                    case_sensitive,
                ) is None,
        },
    decreases mappings.len(),
{
    if mappings.len() > 0 {
        let t = mappings.drop_last();
        let m = mappings.last();
        let n = mappings.len() - 1;
        law_best_hit(t, stem, case_sensitive, var);
        assert forall|j: int| 0 <= j < n implies mappings[j] == #[trigger] t[j] by {}
        match best_hit(mappings, stem, case_sensitive, var) {
            Some(b) => {
                let w = match best_hit(t, stem, case_sensitive, var) {
                    Some(c) => {
                        let i = choose|i: int| #[trigger]
                            wins(t, stem, case_sensitive, var, i, c);
                        if m.var == var && (hit_of(m, stem, case_sensitive) matches Some(h)
                            && outdoes(h, c)) {
                            n
                        } else {
                            i
                        }
                    },
                    None => n,
                };
                assert forall|j: int|
                    0 <= j < mappings.len() && (#[trigger] mappings[j]).var == var implies (hit_of(
                    mappings[j],
                    stem,
                    case_sensitive,
                ) matches Some(h) ==> if j < w {
                    outdoes(b, h)
                } else {
                    !outdoes(h, b)
                }) by {
                    if j < n {
                        assert(t[j].var == var);
                    }
                }
                assert(wins(mappings, stem, case_sensitive, var, w, b));
            },
            None => {
                assert forall|i: int|
                    0 <= i < mappings.len() && (#[trigger] mappings[i]).var == var implies hit_of(
                    mappings[i],
                    stem,
                    case_sensitive,
                ) is None by {
                    if i < n {
                        assert(t[i].var == var);
                    }
                }
            },
        }
    }
}

/// The value of the best mapping for `var`.
fn find_best(
    mappings: &Vec<TokenMapping>,
    stem: &str,
    case_sensitive: bool,
    var: &str,
) -> (r: Option<String>)
    ensures
        match r {
            Some(v) => best_hit(models(mappings@), stem@, case_sensitive, var@) matches Some(h)
                && h.value == v@,
            None => best_hit(models(mappings@), stem@, case_sensitive, var@) is None,
        },
{
    let ghost all = models(mappings@);
    let mut best: Option<usize> = None;
    let mut len: usize = 0;
    let mut place: usize = 0;
    let mut i: usize = 0;
    while i < mappings.len()
        invariant
            all == models(mappings@),
            i <= mappings@.len(),
            match best {
                Some(k) => k < i && best_hit(all.take(i as int), stem@, case_sensitive, var@)
                    == Some(
                    Hit { value: mappings@[k as int].value@, len: len as int, place: place as int },
                ),
                None => best_hit(all.take(i as int), stem@, case_sensitive, var@) is None,
            },
        decreases mappings@.len() - i,
    {
        let m = &mappings[i];
        proof {
            assert(all.take(i + 1).drop_last() =~= all.take(i as int));
            assert(all.take(i + 1).last() == m@);
        }
        let n = m.token.as_str().unicode_len();
        if n > 0 && m.value.as_str().unicode_len() > 0 && m.var.as_str().unicode_len() > 0
            && same_str(m.var.as_str(), var) {
            if let Some(p) = find_boundary_token(stem, m.token.as_str(), case_sensitive) {
                if best.is_none() || n > len || (n == len && p < place) {
                    best = Some(i);
                    len = n;
                    place = p;
                }
            }
        }
        i += 1;
    }
    assert(all.take(i as int) =~= all);
    match best {
        Some(k) => Some(copy_of(mappings[k].value.as_str())),
        None => None,
    }
}

/// A language token and the tag of its language.
pub open spec fn alias_model(token: Seq<char>, value: Seq<char>) -> MappingModel {
    MappingModel { token, value, var: "lang"@ }
}

/// The language tokens with the tags of their languages.
pub open spec fn aliases() -> Seq<MappingModel> {
    seq![
        alias_model("chs"@, "zh-Hans"@),
        alias_model("cht"@, "zh-Hant"@),
        alias_model("sc"@, "zh-Hans"@),
        alias_model("tc"@, "zh-Hant"@),
        alias_model("jp"@, "ja"@),
        alias_model("jpn"@, "ja"@),
        alias_model("eng"@, "en"@),
        alias_model("en"@, "en"@),
        alias_model("gb"@, "zh-Hans"@),
        alias_model("tw"@, "zh-Hant"@),
        alias_model("简体"@, "zh-Hans"@),
        alias_model("繁體"@, "zh-Hant"@),
        alias_model("简"@, "zh-Hans"@),
        alias_model("繁"@, "zh-Hant"@),
        alias_model("jpsc"@, "zh-Hans"@),
        alias_model("jptc"@, "zh-Hant"@),
    ]
}

/// A language token and the tag of its language.
fn alias(token: &str, value: &str) -> (r: TokenMapping)
    ensures
        r@ == alias_model(token@, value@),
{
    TokenMapping { token: copy_of(token), value: copy_of(value), var: default_var() }
}

/// The language tokens with the tags of their languages.
fn alias_list() -> (r: Vec<TokenMapping>)
    ensures
        models(r@) == aliases(),
{
    let mut v: Vec<TokenMapping> = Vec::new();
    v.push(alias("chs", "zh-Hans"));
    v.push(alias("cht", "zh-Hant"));
    v.push(alias("sc", "zh-Hans"));
    v.push(alias("tc", "zh-Hant"));
    v.push(alias("jp", "ja"));
    v.push(alias("jpn", "ja"));
    v.push(alias("eng", "en"));
    v.push(alias("en", "en"));
    v.push(alias("gb", "zh-Hans"));
    v.push(alias("tw", "zh-Hant"));
    v.push(alias("简体", "zh-Hans"));
    v.push(alias("繁體", "zh-Hant"));
    v.push(alias("简", "zh-Hans"));
    v.push(alias("繁", "zh-Hant"));
    v.push(alias("jpsc", "zh-Hans"));
    v.push(alias("jptc", "zh-Hant"));
    assert(models(v@) =~= aliases());
    v
}

/// The tag of the language whose token stands in `stem`.
pub open spec fn alias_value(stem: Seq<char>, case_sensitive: bool) -> Option<Seq<char>> {
    match best_hit(aliases(), stem, case_sensitive, "lang"@) {
        Some(h) => Some(h.value),
        None => None,
    }
}

/// The tag of the language whose token stands in `stem` between boundaries: the longest
/// token, then the first.
pub fn detect_language_alias(stem: &str, case_sensitive: bool) -> (r: Option<String>)
    ensures
        opt_view(r) == alias_value(stem@, case_sensitive),
{
    find_best(&alias_list(), stem, case_sensitive, "lang")
}

impl NamingModel {
    /// The template that is used.
    pub open spec fn effective(self) -> Seq<char> {
        let t = trim_both(self.template, CharClass::Space);
        if t.len() == 0 {
            DEFAULT_TEMPLATE@
        } else {
            t
        }
    }

    /// The value that the mappings give `var`.
    pub open spec fn mapped(self, stem: Seq<char>, var: Seq<char>) -> Option<Seq<char>> {
        match best_hit(self.mappings, stem, self.case_sensitive, var) {
            Some(h) => Some(h.value),
            None => None,
        }
    }

    /// The value of `var`: what the mappings give it, or else, for `lang`, what the
    /// aliases do, where they are used.
    pub open spec fn value_of(self, stem: Seq<char>, var: Seq<char>) -> Option<Seq<char>> {
        match self.mapped(stem, var) {
            Some(v) => Some(v),
            None => if var == "lang"@ && self.auto_fill_lang {
                alias_value(stem, self.case_sensitive)
            } else {
                None
            },
        }
    }

    /// The variables that have a value, with their values.
    pub open spec fn vars(self, stem: Seq<char>) -> Map<Seq<char>, Seq<char>> {
        Map::new(
            |var: Seq<char>| self.value_of(stem, var) is Some,
            |var: Seq<char>| self.value_of(stem, var)->0,
        )
    }
}

impl NamingConfig {
    /// The template that is used, without white space around it.
    pub fn effective_template(&self) -> (r: String)
        ensures
            r@ == self@.effective(),
    {
        let t = trimmed(self.template.as_str(), CharClass::Space);
        if t.as_str().is_empty() {
            copy_of(DEFAULT_TEMPLATE)
        } else {
            t
        }
    }

    /// The variables that the stem of `subtitle` gives a value.
    pub fn resolve_vars(&self, subtitle: &FileEntry) -> (r: Vars)
        ensures
            r@ == self@.vars(subtitle.stem@),
    {
        let stem = subtitle.stem.as_str();
        let ghost me = self@;
        let ghost s = subtitle.stem@;
        let mut vars = Vars::new();
        let mut i: usize = 0;
        while i < self.mappings.len()
            invariant
                me == self@,
                s == subtitle.stem@,
                stem@ == s,
                i <= self.mappings@.len(),
                forall|v: Seq<char>| #[trigger]
                    vars@.contains_key(v) ==> me.mapped(s, v) == Some(vars@[v]),
                forall|j: int|
                    0 <= j < i ==> (me.mapped(s, (#[trigger] me.mappings[j]).var) is Some
                        ==> vars@.contains_key(me.mappings[j].var)),
            decreases self.mappings@.len() - i,
        {
            let var = self.mappings[i].var.as_str();
            assert(me.mappings[i as int].var == var@);
            if !vars.contains_key(var) {
                if let Some(v) = find_best(&self.mappings, stem, self.case_sensitive, var) {
                    vars.insert(copy_of(var), v);
                }
            }
            i += 1;
        }
        proof {
            assert forall|v: Seq<char>| me.mapped(s, v) is Some implies #[trigger]
                vars@.contains_key(v) by {
                law_best_hit(me.mappings, s, me.case_sensitive, v);
                let h = best_hit(me.mappings, s, me.case_sensitive, v)->0;
                let k = choose|k: int|
                    0 <= k < me.mappings.len() && (#[trigger] me.mappings[k]).var == v && hit_of(
                        me.mappings[k],
                        s,
                        me.case_sensitive,
                    ) == Some(h);
                assert(me.mappings[k].var == v);
            }
        }
        let ghost explicit = vars@;
        if !vars.contains_key("lang") && self.auto_fill_lang {
            if let Some(v) = detect_language_alias(stem, self.case_sensitive) {
                vars.insert(copy_of("lang"), v);
            }
        }
        proof {
            assert forall|v: Seq<char>| #[trigger] vars@.contains_key(v) == me.vars(
                s,
            ).contains_key(v) by {
                assert(explicit.contains_key(v) == (me.mapped(s, v) is Some));
            }
            assert(vars@ =~= me.vars(s));
        }
        vars
    }
}

// ---------------------------------------------------------------------------
// Templates
// ---------------------------------------------------------------------------
/// A piece of a template.
#[derive(Debug)]
pub enum Piece {
    /// Text that stands for itself.
    Text(String),
    /// A variable.
    Var(String),
}

/// What a [`Piece`] stands for.
pub enum PieceModel {
    Text(Seq<char>),
    Var(Seq<char>),
}

impl View for Piece {
    type V = PieceModel;

    open spec fn view(&self) -> PieceModel {
        match self {
            Piece::Text(s) => PieceModel::Text(s@),
            Piece::Var(s) => PieceModel::Var(s@),
        }
    }
}

/// The first place of `c` in `s`.
pub open spec fn first_index(s: Seq<char>, c: char) -> Option<int>
    decreases s.len(),
{
    if s.len() == 0 {
        None
    } else if s[0] == c {
        Some(0)
    } else {
        match first_index(s.drop_first(), c) {
            Some(i) => Some(i + 1),
            None => None,
        }
    }
}

/// The name of the variable at the start of `t`, which stands in `${` and `}`.
pub open spec fn var_at(t: Seq<char>) -> Option<Seq<char>> {
    if t.len() >= 2 && t[0] == '$' && t[1] == '{' {
        match first_index(t.skip(2), '}') {
            Some(n) => Some(t.subrange(2, 2 + n)),
            None => None,
        }
    } else {
        None
    }
}

pub proof fn lemma_first_index(s: Seq<char>, c: char)
    ensures
        match first_index(s, c) {
            Some(i) => 0 <= i < s.len() && s[i] == c && forall|j: int| 0 <= j < i ==> s[j] != c,
            None => forall|j: int| 0 <= j < s.len() ==> s[j] != c,
        },
    decreases s.len(),
{
    if s.len() > 0 && s[0] != c {
        let t = s.drop_first();
        lemma_first_index(t, c);
        assert forall|j: int| 0 <= j < t.len() implies t[j] == s[j + 1] by {}
        match first_index(t, c) {
            Some(i) => {
                assert forall|j: int| 0 <= j < i + 1 implies s[j] != c by {
                    if j > 0 {
                        assert(t[j - 1] != c);
                    }
                }
            },
            None => {
                assert forall|j: int| 0 <= j < s.len() implies s[j] != c by {
                    if j > 0 {
                        assert(t[j - 1] != c);
                    }
                }
            },
        }
    }
}

/// The pieces of a template.
pub open spec fn pieces_of(t: Seq<char>) -> Seq<PieceModel>
    decreases t.len(),
{
    if t.len() == 0 {
        Seq::empty()
    } else {
        match var_at(t) {
            Some(name) => if 0 <= name.len() + 3 <= t.len() {
                seq![PieceModel::Var(name)] + pieces_of(t.skip(name.len() as int + 3))
            } else {
                Seq::empty()
            },
            None => seq![PieceModel::Text(t.take(1))] + pieces_of(t.drop_first()),
        }
    }
}

/// What fills a template.
pub struct Fill {
    pub vars: Map<Seq<char>, Seq<char>>,
    pub video: Seq<char>,
    pub ext: Seq<char>,
}

impl Fill {
    /// The value of the variable `name`, empty where it has none.
    pub open spec fn value(self, name: Seq<char>) -> Seq<char> {
        if name == "video"@ {
            self.video
        } else if name == "ext"@ {
            self.ext
        } else if self.vars.contains_key(name) {
            self.vars[name]
        } else {
            Seq::empty()
        }
    }
}

/// The pieces with their values. A variable without a value takes the separators before
/// it with it.
pub open spec fn filled(pieces: Seq<PieceModel>, fill: Fill) -> Seq<char>
    decreases pieces.len(),
{
    if pieces.len() == 0 {
        Seq::empty()
    } else {
        let out = filled(pieces.drop_last(), fill);
        match pieces.last() {
            PieceModel::Text(text) => out + text,
            PieceModel::Var(name) => if fill.value(name).len() > 0 {
                out + fill.value(name)
            } else {
                trim_end(out, CharClass::Separator)
            },
        }
    }
}

/// The name that a template makes: its pieces with their values, without separators at
/// either end.
pub open spec fn rendered(template: Seq<char>, fill: Fill) -> Seq<char> {
    trim_both(filled(pieces_of(template), fill), CharClass::Separator)
}

/// A rendered name neither begins nor ends with a separator.
pub proof fn law_no_dangling(template: Seq<char>, fill: Fill)
    ensures
        rendered(template, fill).len() > 0 ==> !CharClass::Separator.has(
            rendered(template, fill)[0],
        ) && !CharClass::Separator.has(rendered(template, fill).last()),
{
    lemma_trim_both(filled(pieces_of(template), fill), CharClass::Separator);
}

/// A separator before a variable without a value makes no difference.
pub proof fn law_empty_collapses(
    pieces: Seq<PieceModel>,
    sep: char,
    name: Seq<char>,
    fill: Fill,
)
    requires
        CharClass::Separator.has(sep),
        fill.value(name).len() == 0,
    ensures
        filled(pieces.push(PieceModel::Text(seq![sep])).push(PieceModel::Var(name)), fill) == filled(
            pieces.push(PieceModel::Var(name)),
            fill,
        ),
{
    let a = pieces.push(PieceModel::Text(seq![sep]));
    let b = a.push(PieceModel::Var(name));
    let c = pieces.push(PieceModel::Var(name));
    assert(b.drop_last() =~= a);
    assert(a.drop_last() =~= pieces);
    assert(c.drop_last() =~= pieces);
    let out = filled(pieces, fill);
    assert(a.last() == PieceModel::Text(seq![sep]));
    assert(filled(a, fill) =~= out.push(sep));
    assert(b.last() == PieceModel::Var(name));
    assert(c.last() == PieceModel::Var(name));
    assert(out.push(sep).drop_last() =~= out);
    lemma_tail(out, CharClass::Separator);
    assert(trim_end(out.push(sep), CharClass::Separator) =~= trim_end(out, CharClass::Separator));
}

/// Where the variable that begins at `i` ends: the place of its `}`.
fn var_end(c: &Vec<char>, i: usize) -> (r: Option<usize>)
    requires
        i < c@.len(),
    ensures
        match r {
            Some(end) => i + 2 <= end < c@.len() && var_at(c@.skip(i as int)) == Some(
                c@.subrange(i + 2, end as int),
            ),
            None => var_at(c@.skip(i as int)) is None,
        },
{
    let ghost t = c@.skip(i as int);
    let n = c.len();
    if c[i] != '$' || n - i < 2 || c[i + 1] != '{' {
        return None;
    }
    let ghost u = t.skip(2);
    proof {
        assert(u =~= c@.skip(i + 2));
        lemma_first_index(u, '}');
    }
    let mut end: usize = i + 2;
    while end < c.len() && c[end] != '}'
        invariant
            u == c@.skip(i + 2),
            i + 2 <= end <= c@.len(),
            forall|j: int| 0 <= j < end - i - 2 ==> u[j] != '}',
        decreases c@.len() - end,
    {
        assert(u[end - i - 2] == c@[end as int]);
        end += 1;
    }
    if end < c.len() {
        assert(u[end - i - 2] == '}');
        assert(c@.subrange(i + 2, end as int) =~= t.subrange(2, 2 + (end - i - 2)));
        Some(end)
    } else {
        None
    }
}

/// The pieces of a template.
pub fn split_template(template: &str) -> (r: Vec<Piece>)
    ensures
        models(r@) == pieces_of(template@),
{
    let c = chars_of(template);
    let mut out: Vec<Piece> = Vec::new();
    let mut i: usize = 0;
    proof {
        assert(template@.skip(0) =~= template@);
        assert(models(out@) + pieces_of(template@.skip(0)) =~= pieces_of(template@));
    }
    while i < c.len()
        invariant
            c@ == template@,
            i <= c@.len(),
            models(out@) + pieces_of(template@.skip(i as int)) == pieces_of(template@),
        decreases c@.len() - i,
    {
        let ghost t = template@.skip(i as int);
        let ghost before = models(out@);
        let (piece, next) = match var_end(&c, i) {
            Some(end) => (Piece::Var(string_of_range(&c, i + 2, end)), end + 1),
            None => (Piece::Text(string_of_range(&c, i, i + 1)), i + 1),
        };
        let ghost one = piece@;
        out.push(piece);
        proof {
            assert(models(out@) =~= before.push(one));
            let rest = template@.skip(next as int);
            if let Some(name) = var_at(t) {
                assert(one == PieceModel::Var(name));
                assert(t.skip(name.len() as int + 3) =~= rest);
            } else {
                assert(t.take(1) =~= template@.subrange(i as int, i + 1));
                assert(t.drop_first() =~= rest);
            }
            assert(pieces_of(t) == seq![one] + pieces_of(rest));
            assert(models(out@) + pieces_of(rest) =~= before + pieces_of(t));
        }
        i = next;
    }
    assert(models(out@) + pieces_of(template@.skip(i as int)) =~= models(out@));
    out
}

/// Takes the separators off the end of `out`.
fn drop_separators(out: &mut Vec<char>)
    ensures
        final(out)@ == trim_end(old(out)@, CharClass::Separator),
{
    let ghost all = out@;
    assert(all.take(all.len() as int) =~= all);
    while out.len() > 0 && CharClass::Separator.holds(out[out.len() - 1])
        invariant
            out@.len() <= all.len(),
            out@ == all.take(out@.len() as int),
            tail(all, CharClass::Separator) == tail(out@, CharClass::Separator) + (all.len()
                - out@.len()),
        decreases out@.len(),
    {
        let ghost was = out@;
        let _ = out.pop();
        assert(out@ =~= was.drop_last());
        assert(out@ =~= all.take(out@.len() as int));
    }
}

/// The name that the template makes of the variables, the stem of the video and the
/// extension of the subtitle. A variable without a value takes the separators before it
/// with it, and no separators are left at either end.
pub fn render_template(template: &str, vars: &Vars, video_stem: &str, ext: &str) -> (r: String)
    ensures
        r@ == rendered(template@, (Fill { vars: vars@, video: video_stem@, ext: ext@ })),
{
    let ghost fill = Fill { vars: vars@, video: video_stem@, ext: ext@ };
    let pieces = split_template(template);
    let ghost all = models(pieces@);
    let mut out: Vec<char> = Vec::new();
    let mut i: usize = 0;
    while i < pieces.len()
        invariant
            fill == (Fill { vars: vars@, video: video_stem@, ext: ext@ }),
            all == models(pieces@),
            i <= pieces@.len(),
            out@ == filled(all.take(i as int), fill),
        decreases pieces@.len() - i,
    {
        proof {
            assert(all.take(i + 1).drop_last() =~= all.take(i as int));
            assert(all.take(i + 1).last() == pieces@[i as int]@);
        }
        match &pieces[i] {
            Piece::Text(text) => {
                let mut more = chars_of(text.as_str());
                out.append(&mut more);
            },
            Piece::Var(name) => {
                let mut value: Vec<char> = if same_str(name.as_str(), "video") {
                    chars_of(video_stem)
                } else if same_str(name.as_str(), "ext") {
                    chars_of(ext)
                } else {
                    match vars.get(name.as_str()) {
                        Some(v) => chars_of(v.as_str()),
                        None => Vec::new(),
                    }
                };
                assert(value@ =~= fill.value(name@));
                if value.len() > 0 {
                    out.append(&mut value);
                } else {
                    drop_separators(&mut out);
                }
            },
        }
        i += 1;
    }
    assert(all.take(i as int) =~= all);
    let s = string_of(&out);
    trimmed(s.as_str(), CharClass::Separator)
}

} // verus!
