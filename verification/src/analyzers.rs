//! Text analyzers: the built-in ones, custom definitions and their
//! registry, and what an analyzer is built from.

use vstd::prelude::*;
use vstd::string::*;
use crate::document::str_eq;
use crate::external::{lowercase_text, to_lowercase_string, regex_compiles, regex_is_valid};

verus! {

/// The built-in analyzers: `standard`, `keyword` and eighteen languages.
pub open spec fn builtin_analyzer_names() -> Seq<Seq<char>> {
    seq![
        "standard"@,
        "keyword"@,
        "arabic"@,
        "danish"@,
        "dutch"@,
        "english"@,
        "finnish"@,
        "french"@,
        "german"@,
        "greek"@,
        "hungarian"@,
        "italian"@,
        "norwegian"@,
        "portuguese"@,
        "romanian"@,
        "russian"@,
        "spanish"@,
        "swedish"@,
        "tamil"@,
        "turkish"@,
    ]
}

/// Lists the built-in analyzer names.
pub fn list_builtin_analyzers() -> (r: Vec<&'static str>)
    ensures
        r@.map_values(|s: &'static str| s@) == builtin_analyzer_names(),
{
    let r = vec![
        "standard",
        "keyword",
        "arabic",
        "danish",
        "dutch",
        "english",
        "finnish",
        "french",
        "german",
        "greek",
        "hungarian",
        "italian",
        "norwegian",
        "portuguese",
        "romanian",
        "russian",
        "spanish",
        "swedish",
        "tamil",
        "turkish",
    ];
    assert(r@.map_values(|s: &'static str| s@) =~= builtin_analyzer_names());
    r
}

/// Whether `name` is a built-in analyzer.
pub fn is_builtin_analyzer(name: &str) -> (r: bool)
    ensures
        r == builtin_analyzer_names().contains(name@),
{
    let names = list_builtin_analyzers();
    let ghost views = names@.map_values(|s: &'static str| s@);
    let mut i: usize = 0;
    while i < names.len()
        invariant
            i <= names@.len(),
            views == names@.map_values(|s: &'static str| s@),
            views == builtin_analyzer_names(),
            forall|j: int| 0 <= j < i ==> views[j] != name@,
        decreases names@.len() - i,
    {
        if str_eq(names[i], name) {
            assert(views[i as int] == name@);
            return true;
        }
        i = i + 1;
    }
    false
}

/// Languages that a stemmer can follow.
#[derive(Clone, Copy, PartialEq, Eq, Structural, Debug)]
pub enum Language {
    Arabic,
    Danish,
    Dutch,
    English,
    Finnish,
    French,
    German,
    Greek,
    Hungarian,
    Italian,
    Norwegian,
    Portuguese,
    Romanian,
    Russian,
    Spanish,
    Swedish,
    Tamil,
    Turkish,
}

/// The language that a lower-case name stands for.
pub open spec fn spec_language_named(t: Seq<char>) -> Option<Language> {
    if t == "english"@ {
        Some(Language::English)
    } else if t == "russian"@ {
        Some(Language::Russian)
    } else if t == "french"@ {
        Some(Language::French)
    } else if t == "german"@ {
        Some(Language::German)
    } else if t == "spanish"@ {
        Some(Language::Spanish)
    } else if t == "italian"@ {
        Some(Language::Italian)
    } else if t == "portuguese"@ {
        Some(Language::Portuguese)
    } else if t == "dutch"@ {
        Some(Language::Dutch)
    } else if t == "swedish"@ {
        Some(Language::Swedish)
    } else if t == "norwegian"@ {
        Some(Language::Norwegian)
    } else if t == "danish"@ {
        Some(Language::Danish)
    } else if t == "finnish"@ {
        Some(Language::Finnish)
    } else if t == "hungarian"@ {
        Some(Language::Hungarian)
    } else if t == "romanian"@ {
        Some(Language::Romanian)
    } else if t == "turkish"@ {
        Some(Language::Turkish)
    } else if t == "arabic"@ {
        Some(Language::Arabic)
    } else if t == "greek"@ {
        Some(Language::Greek)
    } else if t == "tamil"@ {
        Some(Language::Tamil)
    } else {
        None
    }
}

/// The name of a language: its English name in lower case.
pub open spec fn language_label(l: Language) -> Seq<char> {
    match l {
        Language::Arabic => "arabic"@,
        Language::Danish => "danish"@,
        Language::Dutch => "dutch"@,
        Language::English => "english"@,
        Language::Finnish => "finnish"@,
        Language::French => "french"@,
        Language::German => "german"@,
        Language::Greek => "greek"@,
        Language::Hungarian => "hungarian"@,
        Language::Italian => "italian"@,
        Language::Norwegian => "norwegian"@,
        Language::Portuguese => "portuguese"@,
        Language::Romanian => "romanian"@,
        Language::Russian => "russian"@,
        Language::Spanish => "spanish"@,
        Language::Swedish => "swedish"@,
        Language::Tamil => "tamil"@,
        Language::Turkish => "turkish"@,
    }
}

/// The first two letters of the built-in analyzer names, which tell them
/// apart.
proof fn lemma_builtin_name_letters()
    ensures
        "standard"@.len() == 8 && "standard"@[0] == 's' && "standard"@[1] == 't',
        "keyword"@.len() == 7 && "keyword"@[0] == 'k' && "keyword"@[1] == 'e',
        "arabic"@.len() == 6 && "arabic"@[0] == 'a' && "arabic"@[1] == 'r',
        "danish"@.len() == 6 && "danish"@[0] == 'd' && "danish"@[1] == 'a',
        "dutch"@.len() == 5 && "dutch"@[0] == 'd' && "dutch"@[1] == 'u',
        "english"@.len() == 7 && "english"@[0] == 'e' && "english"@[1] == 'n',
        "finnish"@.len() == 7 && "finnish"@[0] == 'f' && "finnish"@[1] == 'i',
        "french"@.len() == 6 && "french"@[0] == 'f' && "french"@[1] == 'r',
        "german"@.len() == 6 && "german"@[0] == 'g' && "german"@[1] == 'e',
        "greek"@.len() == 5 && "greek"@[0] == 'g' && "greek"@[1] == 'r',
        "hungarian"@.len() == 9 && "hungarian"@[0] == 'h' && "hungarian"@[1] == 'u',
        "italian"@.len() == 7 && "italian"@[0] == 'i' && "italian"@[1] == 't',
        "norwegian"@.len() == 9 && "norwegian"@[0] == 'n' && "norwegian"@[1] == 'o',
        "portuguese"@.len() == 10 && "portuguese"@[0] == 'p' && "portuguese"@[1] == 'o',
        "romanian"@.len() == 8 && "romanian"@[0] == 'r' && "romanian"@[1] == 'o',
        "russian"@.len() == 7 && "russian"@[0] == 'r' && "russian"@[1] == 'u',
        "spanish"@.len() == 7 && "spanish"@[0] == 's' && "spanish"@[1] == 'p',
        "swedish"@.len() == 7 && "swedish"@[0] == 's' && "swedish"@[1] == 'w',
        "tamil"@.len() == 5 && "tamil"@[0] == 't' && "tamil"@[1] == 'a',
        "turkish"@.len() == 7 && "turkish"@[0] == 't' && "turkish"@[1] == 'u',
{
    reveal_strlit("standard");
    reveal_strlit("keyword");
    reveal_strlit("arabic");
    reveal_strlit("danish");
    reveal_strlit("dutch");
    reveal_strlit("english");
    reveal_strlit("finnish");
    reveal_strlit("french");
    reveal_strlit("german");
    reveal_strlit("greek");
    reveal_strlit("hungarian");
    reveal_strlit("italian");
    reveal_strlit("norwegian");
    reveal_strlit("portuguese");
    reveal_strlit("romanian");
    reveal_strlit("russian");
    reveal_strlit("spanish");
    reveal_strlit("swedish");
    reveal_strlit("tamil");
    reveal_strlit("turkish");
}

/// Law: each language name names its own language and no other: the
/// lower-case English name of a language resolves to that language, a name
/// that resolves to a language is that language's name (so no two names
/// share a language), and the names that resolve are exactly the built-in
/// analyzers other than `standard` and `keyword`.
pub proof fn law_language_names(t: Seq<char>, l: Language)
    ensures
        spec_language_named(language_label(l)) == Some(l),
        spec_language_named(t) == Some(l) ==> t == language_label(l),
        spec_language_named(t) is Some <==> (builtin_analyzer_names().contains(t) && t != "standard"@ && t
            != "keyword"@),
{
    lemma_builtin_name_letters();
    let names = builtin_analyzer_names();
    if spec_language_named(t) is Some {
        let i = choose|i: int| 2 <= i < 20 && names[i] == t;
        assert(names.contains(t));
    }
    if names.contains(t) && t != "standard"@ && t != "keyword"@ {
        let i = choose|i: int| 0 <= i < names.len() && names[i] == t;
        assert(spec_language_named(names[i]) is Some);
    }
}

/// The language a stemmer name stands for, matched without regard to case.
pub open spec fn spec_parse_language(name: Seq<char>) -> Option<Language> {
    spec_language_named(lowercase_text(name))
}

/// The language that a lower-case name stands for.
pub fn language_named(t: &str) -> (r: Option<Language>)
    ensures
        r == spec_language_named(t@),
{
    if str_eq(t, "english") {
        Some(Language::English)
    } else if str_eq(t, "russian") {
        Some(Language::Russian)
    } else if str_eq(t, "french") {
        Some(Language::French)
    } else if str_eq(t, "german") {
        Some(Language::German)
    } else if str_eq(t, "spanish") {
        Some(Language::Spanish)
    } else if str_eq(t, "italian") {
        Some(Language::Italian)
    } else if str_eq(t, "portuguese") {
        Some(Language::Portuguese)
    } else if str_eq(t, "dutch") {
        Some(Language::Dutch)
    } else if str_eq(t, "swedish") {
        Some(Language::Swedish)
    } else if str_eq(t, "norwegian") {
        Some(Language::Norwegian)
    } else if str_eq(t, "danish") {
        Some(Language::Danish)
    } else if str_eq(t, "finnish") {
        Some(Language::Finnish)
    } else if str_eq(t, "hungarian") {
        Some(Language::Hungarian)
    } else if str_eq(t, "romanian") {
        Some(Language::Romanian)
    } else if str_eq(t, "turkish") {
        Some(Language::Turkish)
    } else if str_eq(t, "arabic") {
        Some(Language::Arabic)
    } else if str_eq(t, "greek") {
        Some(Language::Greek)
    } else if str_eq(t, "tamil") {
        Some(Language::Tamil)
    } else {
        None
    }
}

/// The language a stemmer name stands for, matched without regard to case.
pub fn parse_language(lang: &str) -> (r: Option<Language>)
    ensures
        r == spec_parse_language(lang@),
{
    let lower = to_lowercase_string(lang);
    language_named(lower.as_str())
}

/// How text is split into tokens.
#[derive(Debug)]
pub enum TokenizerConfig {
    /// Splits on anything that is not a letter or digit.
    Standard,
    /// Splits on whitespace.
    Whitespace,
    /// Character n-grams of `min` to `max` characters.
    Ngram { min: u32, max: u32 },
    /// Splits on the matches of a regular expression.
    Pattern { regex: String },
}

/// A filter applied to the tokens.
#[derive(Debug)]
pub enum FilterConfig {
    Lowercase,
    AsciiFolding,
    /// Stems tokens for a language, given by name.
    Stemmer { lang: String },
    /// Drops tokens outside `min..=max` bytes.
    Length { min: u32, max: u32 },
}

/// A custom analyzer: a tokenizer and filters, under a name.
#[derive(Debug)]
pub struct AnalyzerDef {
    pub name: String,
    pub tokenizer: TokenizerConfig,
    pub filters: Vec<FilterConfig>,
}

pub enum TokenizerModel {
    Standard,
    Whitespace,
    Ngram { min: u32, max: u32 },
    Pattern { regex: Seq<char> },
}

pub enum FilterModel {
    Lowercase,
    AsciiFolding,
    Stemmer { lang: Seq<char> },
    Length { min: u32, max: u32 },
}

pub struct AnalyzerDefModel {
    pub name: Seq<char>,
    pub tokenizer: TokenizerModel,
    pub filters: Seq<FilterModel>,
}

impl View for TokenizerConfig {
    type V = TokenizerModel;

    open spec fn view(&self) -> TokenizerModel {
        match self {
            TokenizerConfig::Standard => TokenizerModel::Standard,
            TokenizerConfig::Whitespace => TokenizerModel::Whitespace,
            TokenizerConfig::Ngram { min, max } => TokenizerModel::Ngram { min: *min, max: *max },
            TokenizerConfig::Pattern { regex } => TokenizerModel::Pattern { regex: regex@ },
        }
    }
}

impl View for FilterConfig {
    type V = FilterModel;

    open spec fn view(&self) -> FilterModel {
        match self {
            FilterConfig::Lowercase => FilterModel::Lowercase,
            FilterConfig::AsciiFolding => FilterModel::AsciiFolding,
            FilterConfig::Stemmer { lang } => FilterModel::Stemmer { lang: lang@ },
            FilterConfig::Length { min, max } => FilterModel::Length { min: *min, max: *max },
        }
    }
}

pub open spec fn filter_views(fs: Seq<FilterConfig>) -> Seq<FilterModel> {
    fs.map_values(|f: FilterConfig| f@)
}

impl View for AnalyzerDef {
    type V = AnalyzerDefModel;

    open spec fn view(&self) -> AnalyzerDefModel {
        AnalyzerDefModel { name: self.name@, tokenizer: self.tokenizer@, filters: filter_views(self.filters@) }
    }
}

impl TokenizerConfig {
    pub fn copy(&self) -> (r: Self)
        ensures
            r@ == self@,
    {
        match self {
            TokenizerConfig::Standard => TokenizerConfig::Standard,
            TokenizerConfig::Whitespace => TokenizerConfig::Whitespace,
            TokenizerConfig::Ngram { min, max } => TokenizerConfig::Ngram { min: *min, max: *max },
            TokenizerConfig::Pattern { regex } => TokenizerConfig::Pattern { regex: regex.clone() },
        }
    }
}

impl FilterConfig {
    pub fn copy(&self) -> (r: Self)
        ensures
            r@ == self@,
    {
        match self {
            FilterConfig::Lowercase => FilterConfig::Lowercase,
            FilterConfig::AsciiFolding => FilterConfig::AsciiFolding,
            FilterConfig::Stemmer { lang } => FilterConfig::Stemmer { lang: lang.clone() },
            FilterConfig::Length { min, max } => FilterConfig::Length { min: *min, max: *max },
        }
    }
}

impl AnalyzerDef {
    pub fn copy(&self) -> (r: Self)
        ensures
            r@ == self@,
    {
        let mut filters: Vec<FilterConfig> = Vec::new();
        let mut i: usize = 0;
        while i < self.filters.len()
            invariant
                i <= self.filters@.len(),
                filters@.len() == i,
                forall|j: int| 0 <= j < i ==> #[trigger] filters@[j]@ == self.filters@[j]@,
            decreases self.filters@.len() - i,
        {
            filters.push(self.filters[i].copy());
            i = i + 1;
        }
        assert(filter_views(filters@) =~= filter_views(self.filters@));
        AnalyzerDef { name: self.name.clone(), tokenizer: self.tokenizer.copy(), filters }
    }
}

/// The tokenizer an analyzer is built on.
#[derive(Debug)]
pub enum TokenizerPlan {
    /// Splits on anything that is not a letter or digit.
    Simple,
    /// Keeps the whole text as one token.
    Raw,
    Whitespace,
    Ngram { min: u32, max: u32 },
    Pattern { regex: String },
}

pub enum TokenizerPlanModel {
    Simple,
    Raw,
    Whitespace,
    Ngram { min: u32, max: u32 },
    Pattern { regex: Seq<char> },
}

impl View for TokenizerPlan {
    type V = TokenizerPlanModel;

    open spec fn view(&self) -> TokenizerPlanModel {
        match self {
            TokenizerPlan::Simple => TokenizerPlanModel::Simple,
            TokenizerPlan::Raw => TokenizerPlanModel::Raw,
            TokenizerPlan::Whitespace => TokenizerPlanModel::Whitespace,
            TokenizerPlan::Ngram { min, max } => TokenizerPlanModel::Ngram { min: *min, max: *max },
            TokenizerPlan::Pattern { regex } => TokenizerPlanModel::Pattern { regex: regex@ },
        }
    }
}

/// What an analyzer is built from: a tokenizer, then, in this order,
/// lower-casing, ASCII folding, a stemmer and a limit on token length.
#[derive(Debug)]
pub struct AnalyzerPlan {
    pub tokenizer: TokenizerPlan,
    pub lowercase: bool,
    pub ascii_folding: bool,
    pub stemmer: Option<Language>,
    pub max_length: Option<usize>,
}

pub struct AnalyzerPlanModel {
    pub tokenizer: TokenizerPlanModel,
    pub lowercase: bool,
    pub ascii_folding: bool,
    pub stemmer: Option<Language>,
    pub max_length: Option<usize>,
}

impl View for AnalyzerPlan {
    type V = AnalyzerPlanModel;

    open spec fn view(&self) -> AnalyzerPlanModel {
        AnalyzerPlanModel {
            tokenizer: self.tokenizer@,
            lowercase: self.lowercase,
            ascii_folding: self.ascii_folding,
            stemmer: self.stemmer,
            max_length: self.max_length,
        }
    }
}

/// The language of the first stemmer filter, from `k` on, whose language
/// is known.
pub open spec fn first_stemmer(fs: Seq<FilterModel>, k: int) -> Option<Language>
    decreases fs.len() - k,
{
    if k < 0 || k >= fs.len() {
        None
    } else {
        match fs[k] {
            FilterModel::Stemmer { lang } => match spec_parse_language(lang) {
                Some(l) => Some(l),
                None => first_stemmer(fs, k + 1),
            },
            _ => first_stemmer(fs, k + 1),
        }
    }
}

/// The maximum of the first length filter, from `k` on.
pub open spec fn first_max_length(fs: Seq<FilterModel>, k: int) -> Option<usize>
    decreases fs.len() - k,
{
    if k < 0 || k >= fs.len() {
        None
    } else {
        match fs[k] {
            FilterModel::Length { max, .. } => Some(max as usize),
            _ => first_max_length(fs, k + 1),
        }
    }
}

pub open spec fn has_lowercase(fs: Seq<FilterModel>) -> bool {
    exists|i: int| 0 <= i < fs.len() && #[trigger] fs[i] is Lowercase
}

pub open spec fn has_ascii_folding(fs: Seq<FilterModel>) -> bool {
    exists|i: int| 0 <= i < fs.len() && #[trigger] fs[i] is AsciiFolding
}

pub open spec fn tokenizer_plan_of(t: TokenizerModel) -> TokenizerPlanModel {
    match t {
        TokenizerModel::Standard => TokenizerPlanModel::Simple,
        TokenizerModel::Whitespace => TokenizerPlanModel::Whitespace,
        TokenizerModel::Ngram { min, max } => if ngram_range_accepted(min, max) {
            TokenizerPlanModel::Ngram { min, max }
        } else {
            TokenizerPlanModel::Ngram { min: 2, max: 3 }
        },
        TokenizerModel::Pattern { regex } => TokenizerPlanModel::Pattern {
            regex: if regex_compiles(regex) {
                regex
            } else {
                fallback_pattern()
            },
        },
    }
}

/// The n-gram ranges the n-gram tokenizer accepts: grams of at least one
/// character, the smallest no longer than the largest. A range it refuses is
/// replaced by grams of 2 to 3 characters.
pub open spec fn ngram_range_accepted(min: u32, max: u32) -> bool {
    0 < min && min <= max
}

/// The pattern used in place of one that does not compile: runs of
/// characters that are not word characters.
pub open spec fn fallback_pattern() -> Seq<char> {
    seq!['[', '^', '\\', 'w', ']', '+']
}

/// What a custom definition builds: its tokenizer; lower-casing and ASCII
/// folding when any filter asks for them; the first stemmer with a known
/// language; the maximum of the first length filter.
pub open spec fn spec_plan_of_def(d: AnalyzerDefModel) -> AnalyzerPlanModel {
    AnalyzerPlanModel {
        tokenizer: tokenizer_plan_of(d.tokenizer),
        lowercase: has_lowercase(d.filters),
        ascii_folding: has_ascii_folding(d.filters),
        stemmer: first_stemmer(d.filters, 0),
        max_length: first_max_length(d.filters, 0),
    }
}

/// The built-in analyzer of a name: `standard` lower-cases simple tokens,
/// `keyword` lower-cases the whole text, a language name adds its stemmer.
pub open spec fn spec_builtin_plan(name: Seq<char>) -> Option<AnalyzerPlanModel> {
    if name == "standard"@ {
        Some(AnalyzerPlanModel { tokenizer: TokenizerPlanModel::Simple, lowercase: true, ascii_folding: false, stemmer: None, max_length: None })
    } else if name == "keyword"@ {
        Some(AnalyzerPlanModel { tokenizer: TokenizerPlanModel::Raw, lowercase: true, ascii_folding: false, stemmer: None, max_length: None })
    } else {
        match spec_language_named(name) {
            Some(l) => Some(AnalyzerPlanModel { tokenizer: TokenizerPlanModel::Simple, lowercase: true, ascii_folding: false, stemmer: Some(l), max_length: None }),
            None => None,
        }
    }
}

pub open spec fn opt_plan_view(p: Option<AnalyzerPlan>) -> Option<AnalyzerPlanModel> {
    match p {
        Some(x) => Some(x@),
        None => None,
    }
}

/// What a custom definition builds.
pub fn build_analyzer(def: &AnalyzerDef) -> (r: AnalyzerPlan)
    ensures
        r@ == spec_plan_of_def(def@),
{
    let ghost fs = filter_views(def.filters@);
    let mut lowercase = false;
    let mut ascii_folding = false;
    let mut stemmer: Option<Language> = None;
    let mut max_length: Option<usize> = None;
    let n = def.filters.len();
    let mut k: usize = n;
    while k > 0
        invariant
            k <= n,
            n == def.filters@.len(),
            fs == filter_views(def.filters@),
            lowercase == exists|i: int| k <= i < n && #[trigger] fs[i] is Lowercase,
            ascii_folding == exists|i: int| k <= i < n && #[trigger] fs[i] is AsciiFolding,
            stemmer == first_stemmer(fs, k as int),
            max_length == first_max_length(fs, k as int),
        decreases k,
    {
        let i = k - 1;
        assert(fs[i as int] == def.filters@[i as int]@);
        match &def.filters[i] {
            FilterConfig::Lowercase => {
                lowercase = true;
            },
            FilterConfig::AsciiFolding => {
                ascii_folding = true;
            },
            FilterConfig::Stemmer { lang } => {
                match parse_language(lang.as_str()) {
                    Some(l) => {
                        stemmer = Some(l);
                    },
                    None => {},
                }
            },
            FilterConfig::Length { max, .. } => {
                max_length = Some(*max as usize);
            },
        }
        k = i;
    }
    let tokenizer = match &def.tokenizer {
        TokenizerConfig::Standard => TokenizerPlan::Simple,
        TokenizerConfig::Whitespace => TokenizerPlan::Whitespace,
        TokenizerConfig::Ngram { min, max } => if 0 < *min && *min <= *max {
            TokenizerPlan::Ngram { min: *min, max: *max }
        } else {
            TokenizerPlan::Ngram { min: 2, max: 3 }
        },
        TokenizerConfig::Pattern { regex } => {
            if regex_is_valid(regex.as_str()) {
                TokenizerPlan::Pattern { regex: regex.clone() }
            } else {
                let fallback = r"[^\w]+";
                proof {
                    reveal_strlit(r"[^\w]+");
                }
                assert(fallback@ =~= fallback_pattern());
                TokenizerPlan::Pattern { regex: String::from_str(fallback) }
            }
        },
    };
    AnalyzerPlan { tokenizer, lowercase, ascii_folding, stemmer, max_length }
}

/// The built-in analyzer of a name, if there is one.
pub fn get_builtin_analyzer(name: &str) -> (r: Option<AnalyzerPlan>)
    ensures
        opt_plan_view(r) == spec_builtin_plan(name@),
{
    if str_eq(name, "standard") {
        Some(AnalyzerPlan { tokenizer: TokenizerPlan::Simple, lowercase: true, ascii_folding: false, stemmer: None, max_length: None })
    } else if str_eq(name, "keyword") {
        Some(AnalyzerPlan { tokenizer: TokenizerPlan::Raw, lowercase: true, ascii_folding: false, stemmer: None, max_length: None })
    } else {
        match language_named(name) {
            Some(l) => Some(AnalyzerPlan { tokenizer: TokenizerPlan::Simple, lowercase: true, ascii_folding: false, stemmer: Some(l), max_length: None }),
            None => None,
        }
    }
}

/// The definition registered under a name: the first with that name.
pub open spec fn custom_lookup(m: Seq<AnalyzerDefModel>, name: Seq<char>) -> Option<AnalyzerDefModel>
    decreases m.len(),
{
    if m.len() == 0 {
        None
    } else if m[0].name == name {
        Some(m[0])
    } else {
        custom_lookup(m.drop_first(), name)
    }
}

/// The last of the definitions with that name.
pub open spec fn last_named(defs: Seq<AnalyzerDefModel>, name: Seq<char>) -> Option<AnalyzerDefModel>
    decreases defs.len(),
{
    if defs.len() == 0 {
        None
    } else if defs.last().name == name {
        Some(defs.last())
    } else {
        last_named(defs.drop_last(), name)
    }
}

pub open spec fn opt_def_view(o: Option<AnalyzerDef>) -> Option<AnalyzerDefModel> {
    match o {
        Some(d) => Some(d@),
        None => None,
    }
}

pub open spec fn def_models(v: Seq<AnalyzerDef>) -> Seq<AnalyzerDefModel> {
    v.map_values(|d: AnalyzerDef| d@)
}

/// Custom analyzers by name, beside the built-in ones.
#[derive(Debug)]
pub struct AnalyzerRegistry {
    custom: Vec<AnalyzerDef>,
}

impl View for AnalyzerRegistry {
    type V = Seq<AnalyzerDefModel>;

    closed spec fn view(&self) -> Seq<AnalyzerDefModel> {
        def_models(self.custom@)
    }
}

proof fn lemma_lookup_at(m: Seq<AnalyzerDefModel>, name: Seq<char>, i: int)
    requires
        0 <= i < m.len(),
        m[i].name == name,
        forall|j: int| 0 <= j < i ==> #[trigger] m[j].name != name,
    ensures
        custom_lookup(m, name) == Some(m[i]),
    decreases i,
{
    if i > 0 {
        assert forall|j: int| 0 <= j < i - 1 implies #[trigger] m.drop_first()[j].name != name by {
            assert(m[j + 1].name != name);
        }
        lemma_lookup_at(m.drop_first(), name, i - 1);
    }
}

proof fn lemma_lookup_absent(m: Seq<AnalyzerDefModel>, name: Seq<char>)
    requires
        forall|j: int| 0 <= j < m.len() ==> #[trigger] m[j].name != name,
    ensures
        custom_lookup(m, name) is None,
    decreases m.len(),
{
    if m.len() > 0 {
        assert(m[0].name != name);
        assert forall|j: int| 0 <= j < m.len() - 1 implies #[trigger] m.drop_first()[j].name != name by {
            assert(m[j + 1].name != name);
        }
        lemma_lookup_absent(m.drop_first(), name);
    }
}

/// A name's definition when names are distinct.
proof fn lemma_lookup(m: Seq<AnalyzerDefModel>, name: Seq<char>)
    requires
        forall|a: int, b: int| 0 <= a < b < m.len() ==> #[trigger] m[a].name != #[trigger] m[b].name,
    ensures
        forall|i: int| 0 <= i < m.len() && #[trigger] m[i].name == name ==> custom_lookup(m, name) == Some(m[i]),
        (forall|i: int| 0 <= i < m.len() ==> #[trigger] m[i].name != name) ==> custom_lookup(m, name) is None,
{
    assert forall|i: int| 0 <= i < m.len() && #[trigger] m[i].name == name implies custom_lookup(m, name) == Some(m[i]) by {
        assert forall|j: int| 0 <= j < i implies #[trigger] m[j].name != name by {
            assert(m[j].name != m[i].name);
        }
        lemma_lookup_at(m, name, i);
    }
    if forall|i: int| 0 <= i < m.len() ==> #[trigger] m[i].name != name {
        lemma_lookup_absent(m, name);
    }
}

fn concat_message(prefix: &str, name: &str) -> (r: String)
    ensures
        r@ == prefix@ + name@,
{
    let mut s = String::from_str(prefix);
    s.append(name);
    s
}

impl AnalyzerRegistry {
    #[verifier::type_invariant]
    closed spec fn wf(self) -> bool {
        forall|a: int, b: int|
            0 <= a < b < self.custom@.len() ==> #[trigger] self.custom@[a].name@ != #[trigger] self.custom@[b].name@
    }

    proof fn lemma_view_distinct(&self)
        requires
            self.wf(),
        ensures
            forall|a: int, b: int| 0 <= a < b < self@.len() ==> #[trigger] self@[a].name != #[trigger] self@[b].name,
            self@.len() == self.custom@.len(),
            forall|i: int| 0 <= i < self@.len() ==> #[trigger] self@[i] == self.custom@[i]@,
    {
        assert forall|a: int, b: int| 0 <= a < b < self@.len() implies #[trigger] self@[a].name != #[trigger] self@[b].name by {
            assert(self.custom@[a].name@ != self.custom@[b].name@);
        }
    }

    /// An empty registry.
    pub fn new() -> (r: Self)
        ensures
            r@ == Seq::<AnalyzerDefModel>::empty(),
    {
        let r = AnalyzerRegistry { custom: Vec::new() };
        assert(r@ =~= Seq::<AnalyzerDefModel>::empty());
        r
    }

    fn position(&self, name: &str) -> (r: Option<usize>)
        ensures
            r matches Some(i) ==> i < self@.len() && self@[i as int].name == name@ && custom_lookup(self@, name@) == Some(self@[i as int]),
            r is None ==> forall|j: int| 0 <= j < self@.len() ==> #[trigger] self@[j].name != name@,
            r is None ==> custom_lookup(self@, name@) is None,
    {
        proof {
            use_type_invariant(self);
            self.lemma_view_distinct();
            lemma_lookup(self@, name@);
        }
        let mut i: usize = 0;
        while i < self.custom.len()
            invariant
                i <= self.custom@.len(),
                self@.len() == self.custom@.len(),
                forall|k: int| 0 <= k < self@.len() ==> #[trigger] self@[k] == self.custom@[k]@,
                forall|j: int| 0 <= j < i ==> #[trigger] self@[j].name != name@,
            decreases self.custom@.len() - i,
        {
            if str_eq(self.custom[i].name.as_str(), name) {
                assert(self@[i as int].name == name@);
                proof {
                    use_type_invariant(self);
                    self.lemma_view_distinct();
                    lemma_lookup(self@, name@);
                }
                return Some(i);
            }
            i = i + 1;
        }
        None
    }

    /// The custom definition registered under `name`.
    pub fn get_def(&self, name: &str) -> (r: Option<AnalyzerDef>)
        ensures
            opt_def_view(r) == custom_lookup(self@, name@),
    {
        match self.position(name) {
            Some(i) => {
                let d = self.custom[i].copy();
                assert(self@[i as int] == self.custom@[i as int]@);
                Some(d)
            },
            None => None,
        }
    }

    /// Whether a built-in or custom analyzer has this name.
    pub fn analyzer_exists(&self, name: &str) -> (r: bool)
        ensures
            r == (builtin_analyzer_names().contains(name@) || custom_lookup(self@, name@) is Some),
    {
        is_builtin_analyzer(name) || self.position(name).is_some()
    }

    /// The analyzer of a name: a built-in one first, else a custom one.
    pub fn get(&self, name: &str) -> (r: Option<AnalyzerPlan>)
        ensures
            spec_builtin_plan(name@) is Some ==> opt_plan_view(r) == spec_builtin_plan(name@),
            spec_builtin_plan(name@) is None ==> opt_plan_view(r) == match custom_lookup(self@, name@) {
                Some(d) => Some(spec_plan_of_def(d)),
                None => None,
            },
    {
        match get_builtin_analyzer(name) {
            Some(p) => Some(p),
            None => match self.position(name) {
                Some(i) => {
                    assert(self@[i as int] == self.custom@[i as int]@);
                    Some(build_analyzer(&self.custom[i]))
                },
                None => None,
            },
        }
    }

    /// Names of the custom analyzers.
    pub fn list_custom(&self) -> (r: Vec<String>)
        ensures
            r@.map_values(|s: String| s@) == self@.map_values(|d: AnalyzerDefModel| d.name),
    {
        let mut r: Vec<String> = Vec::new();
        let mut i: usize = 0;
        while i < self.custom.len()
            invariant
                i <= self.custom@.len(),
                r@.len() == i,
                forall|j: int| 0 <= j < i ==> #[trigger] r@[j]@ == self.custom@[j].name@,
            decreases self.custom@.len() - i,
        {
            r.push(self.custom[i].name.clone());
            i = i + 1;
        }
        assert(r@.map_values(|s: String| s@) =~= self@.map_values(|d: AnalyzerDefModel| d.name));
        r
    }

    /// Puts `def` under its name, replacing a definition of the same name.
    fn insert(&mut self, def: AnalyzerDef)
        ensures
            custom_lookup(final(self)@, def@.name) == Some(def@),
            forall|n: Seq<char>| n != def@.name ==> #[trigger] custom_lookup(final(self)@, n) == custom_lookup(old(self)@, n),
    {
        proof {
            use_type_invariant(&*self);
        }
        let ghost m1 = self@;
        let ghost dv = def@;
        let pos = self.position(def.name.as_str());
        let mut items: Vec<AnalyzerDef> = Vec::new();
        std::mem::swap(&mut items, &mut self.custom);
        let ghost before = items@;
        match pos {
            Some(i) => {
                let _old = items.remove(i);
                items.insert(i, def);
                proof {
                    assert(items@ =~= before.update(i as int, items@[i as int]));
                    assert forall|a: int, b: int| 0 <= a < b < items@.len() implies #[trigger] items@[a].name@ != #[trigger] items@[b].name@ by {
                        if a != i && b != i {
                            assert(items@[a] == before[a] && items@[b] == before[b]);
                        } else if a == i {
                            assert(items@[b] == before[b]);
                            assert(before[a].name@ == dv.name);
                        } else {
                            assert(items@[a] == before[a]);
                            assert(before[b].name@ == dv.name);
                        }
                    }
                }
            },
            None => {
                items.push(def);
                proof {
                    assert forall|a: int, b: int| 0 <= a < b < items@.len() implies #[trigger] items@[a].name@ != #[trigger] items@[b].name@ by {
                        if b == items@.len() - 1 {
                            assert(items@[a] == before[a]);
                            assert(m1[a] == before[a]@);
                            assert(m1[a].name != dv.name);
                        } else {
                            assert(items@[a] == before[a] && items@[b] == before[b]);
                        }
                    }
                }
            },
        }
        self.custom = items;
        proof {
            use_type_invariant(&*self);
            self.lemma_view_distinct();
            let m2 = self@;
            lemma_lookup(m2, dv.name);
            assert forall|n: Seq<char>| n != dv.name implies #[trigger] custom_lookup(m2, n) == custom_lookup(m1, n) by {
                lemma_lookup(m2, n);
                lemma_lookup(m1, n);
                match pos {
                    Some(i) => {
                        assert forall|j: int| 0 <= j < m2.len() && j != i implies #[trigger] m2[j] == m1[j] by {
                            assert(self.custom@[j] == before[j]);
                        }
                        if exists|j: int| 0 <= j < m1.len() && #[trigger] m1[j].name == n {
                            let j = choose|j: int| 0 <= j < m1.len() && #[trigger] m1[j].name == n;
                            assert(j != i);
                            assert(m2[j] == m1[j]);
                        } else {
                            assert forall|j: int| 0 <= j < m2.len() implies #[trigger] m2[j].name != n by {
                                if j != i {
                                    assert(m2[j] == m1[j]);
                                }
                            }
                        }
                    },
                    None => {
                        assert forall|j: int| 0 <= j < m1.len() implies #[trigger] m2[j] == m1[j] by {
                            assert(self.custom@[j] == before[j]);
                        }
                        if exists|j: int| 0 <= j < m1.len() && #[trigger] m1[j].name == n {
                            let j = choose|j: int| 0 <= j < m1.len() && #[trigger] m1[j].name == n;
                            assert(m2[j] == m1[j]);
                        } else {
                            assert forall|j: int| 0 <= j < m2.len() implies #[trigger] m2[j].name != n by {
                                if j < m1.len() {
                                    assert(m2[j] == m1[j]);
                                }
                            }
                        }
                    },
                }
            }
            match pos {
                Some(i) => {
                    assert(m2[i as int] == dv);
                },
                None => {
                    assert(m2[m2.len() - 1] == dv);
                },
            }
        }
    }

    /// Registers a custom analyzer; refused for a built-in name.
    pub fn register(&mut self, def: AnalyzerDef) -> (r: Result<(), String>)
        ensures
            builtin_analyzer_names().contains(def@.name) ==> (r matches Err(m)
                && m@ == "Cannot override builtin analyzer: "@ + def@.name && final(self)@ == old(self)@),
            !builtin_analyzer_names().contains(def@.name) ==> (r is Ok
                && custom_lookup(final(self)@, def@.name) == Some(def@)
                && forall|n: Seq<char>| n != def@.name ==> #[trigger] custom_lookup(final(self)@, n) == custom_lookup(old(self)@, n)),
    {
        if is_builtin_analyzer(def.name.as_str()) {
            return Err(concat_message("Cannot override builtin analyzer: ", def.name.as_str()));
        }
        self.insert(def);
        Ok(())
    }

    /// Removes a custom analyzer; refused for a built-in or unknown name.
    pub fn remove(&mut self, name: &str) -> (r: Result<(), String>)
        ensures
            builtin_analyzer_names().contains(name@) ==> (r matches Err(m)
                && m@ == "Cannot remove builtin analyzer: "@ + name@ && final(self)@ == old(self)@),
            !builtin_analyzer_names().contains(name@) && custom_lookup(old(self)@, name@) is None ==> (r matches Err(m)
                && m@ == "Analyzer not found: "@ + name@ && final(self)@ == old(self)@),
            !builtin_analyzer_names().contains(name@) && custom_lookup(old(self)@, name@) is Some ==> (r is Ok
                && custom_lookup(final(self)@, name@) is None
                && forall|n: Seq<char>| n != name@ ==> #[trigger] custom_lookup(final(self)@, n) == custom_lookup(old(self)@, n)),
    {
        if is_builtin_analyzer(name) {
            return Err(concat_message("Cannot remove builtin analyzer: ", name));
        }
        proof {
            use_type_invariant(&*self);
        }
        let ghost m1 = self@;
        match self.position(name) {
            None => Err(concat_message("Analyzer not found: ", name)),
            Some(i) => {
                let mut items: Vec<AnalyzerDef> = Vec::new();
                std::mem::swap(&mut items, &mut self.custom);
                let ghost before = items@;
                let _gone = items.remove(i);
                proof {
                    assert(items@ =~= before.remove(i as int));
                    assert forall|a: int, b: int| 0 <= a < b < items@.len() implies #[trigger] items@[a].name@ != #[trigger] items@[b].name@ by {
                        let a2 = if a < i { a } else { a + 1 };
                        let b2 = if b < i { b } else { b + 1 };
                        assert(items@[a] == before[a2]);
                        assert(items@[b] == before[b2]);
                    }
                }
                self.custom = items;
                proof {
                    use_type_invariant(&*self);
                    self.lemma_view_distinct();
                    let m2 = self@;
                    assert forall|j: int| 0 <= j < m2.len() implies #[trigger] m2[j] == m1[if j < i { j } else { j + 1 }] by {
                        let j2 = if j < i { j } else { j + 1 };
                        assert(self.custom@[j] == before[j2]);
                    }
                    lemma_lookup(m2, name@);
                    assert forall|j: int| 0 <= j < m2.len() implies #[trigger] m2[j].name != name@ by {
                        let j2 = if j < i { j } else { j + 1 };
                        assert(m2[j] == m1[j2]);
                        assert(m1[j2].name != m1[i as int].name);
                    }
                    assert forall|n: Seq<char>| n != name@ implies #[trigger] custom_lookup(m2, n) == custom_lookup(m1, n) by {
                        lemma_lookup(m2, n);
                        lemma_lookup(m1, n);
                        if exists|j: int| 0 <= j < m1.len() && #[trigger] m1[j].name == n {
                            let j = choose|j: int| 0 <= j < m1.len() && #[trigger] m1[j].name == n;
                            assert(j != i);
                            let j2 = if j < i { j } else { j - 1 };
                            assert(m2[j2] == m1[j]);
                        } else {
                            assert forall|j: int| 0 <= j < m2.len() implies #[trigger] m2[j].name != n by {
                                let j2 = if j < i { j } else { j + 1 };
                                assert(m2[j] == m1[j2]);
                            }
                        }
                    }
                }
                Ok(())
            },
        }
    }

    /// Registers each definition in turn, a later one replacing an earlier
    /// one of the same name; built-in names are not checked here.
    pub fn load(&mut self, analyzers: Vec<AnalyzerDef>)
        ensures
            forall|n: Seq<char>| #[trigger] custom_lookup(final(self)@, n) == match last_named(def_models(analyzers@), n) {
                Some(d) => Some(d),
                None => custom_lookup(old(self)@, n),
            },
    {
        let ghost m0 = self@;
        let ghost dm = def_models(analyzers@);
        let mut rest = analyzers;
        let ghost all = rest@;
        let mut taken: usize = 0;
        let total = rest.len();
        let mut queue: Vec<AnalyzerDef> = Vec::new();
        while rest.len() > 0
            invariant
                rest@.len() + queue@.len() == total,
                all.len() == total,
                forall|j: int| 0 <= j < rest@.len() ==> #[trigger] rest@[j] == all[j],
                forall|j: int| 0 <= j < queue@.len() ==> #[trigger] queue@[j] == all[total - 1 - j],
            decreases rest@.len(),
        {
            let d = rest.pop().unwrap();
            queue.push(d);
        }
        let mut k: usize = 0;
        while queue.len() > 0
            invariant
                k + queue@.len() == total,
                all.len() == total,
                dm == def_models(all),
                forall|j: int| 0 <= j < queue@.len() ==> #[trigger] queue@[j] == all[total - 1 - j],
                forall|n: Seq<char>| #[trigger] custom_lookup(self@, n) == match last_named(dm.take(k as int), n) {
                    Some(d) => Some(d),
                    None => custom_lookup(m0, n),
                },
            decreases queue@.len(),
        {
            let d = queue.pop().unwrap();
            assert(d == all[k as int]);
            let ghost dv = d@;
            let ghost before = self@;
            self.insert(d);
            proof {
                assert(dm.take(k + 1).drop_last() =~= dm.take(k as int));
                assert(dm.take(k + 1).last() == dv);
                assert forall|n: Seq<char>| #[trigger] custom_lookup(self@, n) == match last_named(dm.take(k + 1), n) {
                    Some(x) => Some(x),
                    None => custom_lookup(m0, n),
                } by {
                    if n != dv.name {
                        assert(custom_lookup(self@, n) == custom_lookup(before, n));
                    }
                }
            }
            k = k + 1;
        }
        assert(dm.take(total as int) =~= dm);
    }
}

} // verus!

verus! {

/// Law: the names listed as built-in are exactly those that have a
/// built-in analyzer, so a custom analyzer can never take such a name.
pub proof fn law_builtin_names_have_analyzers(name: Seq<char>)
    ensures
        builtin_analyzer_names().contains(name) <==> spec_builtin_plan(name) is Some,
{
    let names = builtin_analyzer_names();
    if spec_builtin_plan(name) is Some {
        if name == "standard"@ {
            assert(names[0] == name);
        } else if name == "keyword"@ {
            assert(names[1] == name);
        } else if name == "arabic"@ {
            assert(names[2] == name);
        } else if name == "danish"@ {
            assert(names[3] == name);
        } else if name == "dutch"@ {
            assert(names[4] == name);
        } else if name == "english"@ {
            assert(names[5] == name);
        } else if name == "finnish"@ {
            assert(names[6] == name);
        } else if name == "french"@ {
            assert(names[7] == name);
        } else if name == "german"@ {
            assert(names[8] == name);
        } else if name == "greek"@ {
            assert(names[9] == name);
        } else if name == "hungarian"@ {
            assert(names[10] == name);
        } else if name == "italian"@ {
            assert(names[11] == name);
        } else if name == "norwegian"@ {
            assert(names[12] == name);
        } else if name == "portuguese"@ {
            assert(names[13] == name);
        } else if name == "romanian"@ {
            assert(names[14] == name);
        } else if name == "russian"@ {
            assert(names[15] == name);
        } else if name == "spanish"@ {
            assert(names[16] == name);
        } else if name == "swedish"@ {
            assert(names[17] == name);
        } else if name == "tamil"@ {
            assert(names[18] == name);
        } else {
            assert(names[19] == name);
        }
    }
}

} // verus!
