use stellardb::tokenizer::{token_splits, tokens_at, PatternTokenizer};
use stellardb::analyzers::{
    build_analyzer, get_builtin_analyzer, language_named, parse_language, AnalyzerDef, AnalyzerRegistry,
    FilterConfig, Language, TokenizerConfig, TokenizerPlan,
};

fn def(name: &str, tokenizer: TokenizerConfig, filters: Vec<FilterConfig>) -> AnalyzerDef {
    AnalyzerDef { name: name.to_string(), tokenizer, filters }
}

#[test]
fn builtin_analyzer_plans() {
    assert!(get_builtin_analyzer("standard").is_some());
    assert!(get_builtin_analyzer("keyword").is_some());
    assert!(get_builtin_analyzer("russian").is_some());
    assert!(get_builtin_analyzer("english").is_some());
    assert!(get_builtin_analyzer("nonexistent").is_none());
    let kw = get_builtin_analyzer("keyword").unwrap();
    assert!(matches!(kw.tokenizer, TokenizerPlan::Raw));
    assert!(kw.lowercase);
    let en = get_builtin_analyzer("english").unwrap();
    assert!(matches!(en.tokenizer, TokenizerPlan::Simple));
    assert_eq!(en.stemmer, Some(Language::English));
}

#[test]
fn test_registry_new() {
    let registry = AnalyzerRegistry::new();
    assert!(registry.list_custom().is_empty());
}

#[test]
fn test_registry_get_builtin() {
    let registry = AnalyzerRegistry::new();
    assert!(registry.get("standard").is_some());
    assert!(registry.get("english").is_some());
    assert!(registry.get("nonexistent").is_none());
}

#[test]
fn test_registry_register_custom() {
    let mut registry = AnalyzerRegistry::new();
    let d = def("my_analyzer", TokenizerConfig::Standard, vec![FilterConfig::Lowercase]);
    assert!(registry.register(d.copy()).is_ok());
    assert!(registry.analyzer_exists("my_analyzer"));
    assert!(registry.get("my_analyzer").is_some());
    let retrieved = registry.get_def("my_analyzer");
    assert!(retrieved.is_some());
    assert_eq!(retrieved.unwrap().name, "my_analyzer");
    assert!(registry.list_custom().contains(&"my_analyzer".to_string()));
}

#[test]
fn test_registry_cannot_override_builtin() {
    let mut registry = AnalyzerRegistry::new();
    let d = def("standard", TokenizerConfig::Standard, vec![]);
    let result = registry.register(d);
    assert!(result.is_err());
    assert!(result.unwrap_err().contains("Cannot override builtin"));
}

#[test]
fn test_registry_remove_custom() {
    let mut registry = AnalyzerRegistry::new();
    registry.register(def("removable", TokenizerConfig::Whitespace, vec![])).unwrap();
    assert!(registry.analyzer_exists("removable"));
    assert!(registry.remove("removable").is_ok());
    assert!(!registry.analyzer_exists("removable"));
}

#[test]
fn test_registry_cannot_remove_builtin() {
    let mut registry = AnalyzerRegistry::new();
    let result = registry.remove("standard");
    assert!(result.is_err());
    assert!(result.unwrap_err().contains("Cannot remove builtin"));
}

#[test]
fn test_registry_remove_nonexistent() {
    let mut registry = AnalyzerRegistry::new();
    let result = registry.remove("nonexistent");
    assert!(result.is_err());
    assert!(result.unwrap_err().contains("Analyzer not found"));
}

#[test]
fn test_registry_load() {
    let mut registry = AnalyzerRegistry::new();
    let analyzers = vec![
        def("analyzer1", TokenizerConfig::Standard, vec![FilterConfig::Lowercase]),
        def("analyzer2", TokenizerConfig::Whitespace, vec![FilterConfig::AsciiFolding]),
    ];
    registry.load(analyzers);
    assert!(registry.analyzer_exists("analyzer1"));
    assert!(registry.analyzer_exists("analyzer2"));
    assert_eq!(registry.list_custom().len(), 2);
}

#[test]
fn test_registry_exists() {
    let mut registry = AnalyzerRegistry::new();
    assert!(registry.analyzer_exists("standard"));
    assert!(registry.analyzer_exists("english"));
    assert!(!registry.analyzer_exists("nonexistent"));
    registry.register(def("custom", TokenizerConfig::Standard, vec![])).unwrap();
    assert!(registry.analyzer_exists("custom"));
}

#[test]
fn test_build_analyzer_standard() {
    let plan = build_analyzer(&def("test", TokenizerConfig::Standard, vec![FilterConfig::Lowercase]));
    assert!(matches!(plan.tokenizer, TokenizerPlan::Simple));
    assert!(plan.lowercase);
    assert!(!plan.ascii_folding);
    assert_eq!(plan.stemmer, None);
    assert_eq!(plan.max_length, None);
}

#[test]
fn test_build_analyzer_whitespace() {
    let plan = build_analyzer(&def(
        "test",
        TokenizerConfig::Whitespace,
        vec![FilterConfig::Lowercase, FilterConfig::AsciiFolding],
    ));
    assert!(matches!(plan.tokenizer, TokenizerPlan::Whitespace));
    assert!(plan.lowercase);
    assert!(plan.ascii_folding);
}

#[test]
fn test_build_analyzer_ngram() {
    let plan = build_analyzer(&def("test", TokenizerConfig::Ngram { min: 2, max: 4 }, vec![FilterConfig::Lowercase]));
    assert!(matches!(plan.tokenizer, TokenizerPlan::Ngram { min: 2, max: 4 }));
}

#[test]
fn test_build_analyzer_with_stemmer() {
    let plan = build_analyzer(&def(
        "test",
        TokenizerConfig::Standard,
        vec![FilterConfig::Lowercase, FilterConfig::Stemmer { lang: "english".to_string() }],
    ));
    assert_eq!(plan.stemmer, Some(Language::English));
}

#[test]
fn test_build_analyzer_with_length_filter() {
    let plan = build_analyzer(&def(
        "test",
        TokenizerConfig::Standard,
        vec![FilterConfig::Lowercase, FilterConfig::Length { min: 2, max: 50 }],
    ));
    assert_eq!(plan.max_length, Some(50));
}

#[test]
fn build_analyzer_takes_first_known_stemmer_and_first_length() {
    let plan = build_analyzer(&def(
        "test",
        TokenizerConfig::Standard,
        vec![
            FilterConfig::Stemmer { lang: "klingon".to_string() },
            FilterConfig::Length { min: 1, max: 7 },
            FilterConfig::Stemmer { lang: "German".to_string() },
            FilterConfig::Stemmer { lang: "french".to_string() },
            FilterConfig::Length { min: 1, max: 9 },
        ],
    ));
    assert_eq!(plan.stemmer, Some(Language::German));
    assert_eq!(plan.max_length, Some(7));
    assert!(!plan.lowercase);
}

#[test]
fn test_parse_language() {
    assert_eq!(parse_language("english"), Some(Language::English));
    assert_eq!(parse_language("ENGLISH"), Some(Language::English));
    assert_eq!(parse_language("Russian"), Some(Language::Russian));
    assert_eq!(parse_language("french"), Some(Language::French));
    assert_eq!(parse_language("german"), Some(Language::German));
    assert_eq!(parse_language("spanish"), Some(Language::Spanish));
    assert_eq!(parse_language("unknown"), None);
}

#[test]
fn test_build_analyzer_pattern() {
    let plan = build_analyzer(&def(
        "test",
        TokenizerConfig::Pattern { regex: r"[^a-zA-Z]+".to_string() },
        vec![FilterConfig::Lowercase],
    ));
    match plan.tokenizer {
        TokenizerPlan::Pattern { regex } => assert_eq!(regex, r"[^a-zA-Z]+"),
        _ => panic!("expected a pattern tokenizer"),
    }
}

#[test]
fn load_replaces_by_name_and_keeps_the_last() {
    let mut registry = AnalyzerRegistry::new();
    registry.register(def("a", TokenizerConfig::Standard, vec![])).unwrap();
    registry.load(vec![
        def("a", TokenizerConfig::Whitespace, vec![]),
        def("b", TokenizerConfig::Standard, vec![]),
        def("a", TokenizerConfig::Ngram { min: 1, max: 2 }, vec![]),
    ]);
    assert_eq!(registry.list_custom().len(), 2);
    let a = registry.get_def("a").unwrap();
    assert!(matches!(a.tokenizer, TokenizerConfig::Ngram { min: 1, max: 2 }));
}

fn token_texts(pattern: &str, text: &str) -> Vec<String> {
    let tokenizer = PatternTokenizer::new(pattern).unwrap();
    tokenizer.token_stream(text).into_iter().map(|t| t.text).collect()
}

#[test]
fn test_pattern_tokenizer_splits_correctly() {
    assert_eq!(token_texts(r"[^a-zA-Z]+", "hello-world 123 foo"), vec!["hello", "world", "foo"]);
}

#[test]
fn test_pattern_tokenizer_comma_split() {
    assert_eq!(token_texts(r"\s*,\s*", "one, two , three"), vec!["one", "two", "three"]);
}

#[test]
fn test_pattern_tokenizer_empty_string() {
    let tokenizer = PatternTokenizer::new(r"\s+").unwrap();
    assert!(tokenizer.token_stream("").is_empty());
}

#[test]
fn test_pattern_tokenizer_no_match() {
    assert_eq!(token_texts(r"@", "hello world"), vec!["hello world"]);
}

#[test]
fn test_pattern_tokenizer_offsets() {
    let tokenizer = PatternTokenizer::new(r"\s+").unwrap();
    let tokens = tokenizer.token_stream("hello world foo");
    assert_eq!(tokens.len(), 3);
    assert_eq!((tokens[0].offset_from, tokens[0].offset_to, tokens[0].position), (0, 5, 0));
    assert_eq!((tokens[1].offset_from, tokens[1].offset_to, tokens[1].position), (6, 11, 1));
    assert_eq!((tokens[2].offset_from, tokens[2].offset_to, tokens[2].position), (12, 15, 2));
}

#[test]
fn test_pattern_tokenizer_invalid_regex_fallback() {
    let plan = build_analyzer(&def("test", TokenizerConfig::Pattern { regex: r"[invalid".to_string() }, vec![]));
    match plan.tokenizer {
        TokenizerPlan::Pattern { regex } => assert_eq!(regex, r"[^\w]+"),
        _ => panic!("expected a pattern tokenizer"),
    }
    assert!(PatternTokenizer::new(r"[invalid").is_none());
}

#[test]
fn token_splits_between_matches() {
    assert_eq!(token_splits(10, &[(0, 2), (4, 5), (5, 7)]), vec![(2, 4), (7, 10)]);
    assert_eq!(token_splits(3, &[]), vec![(0, 3)]);
    assert_eq!(token_splits(0, &[]), vec![]);
    assert_eq!(token_splits(4, &[(0, 4)]), vec![]);
}

#[test]
fn pattern_tokens_of_multibyte_text() {
    assert_eq!(token_texts(r"\s+", "héllo wörld"), vec!["héllo", "wörld"]);
}

#[test]
fn tokens_at_given_spans() {
    let tokens = tokens_at("ab cd", &[(0, 2), (3, 5)]);
    assert_eq!(tokens.len(), 2);
    assert_eq!(tokens[0].text, "ab");
    assert_eq!(tokens[1].text, "cd");
    assert_eq!(tokens[1].position, 1);
    assert_eq!(tokens[1].position_length, 1);
}

#[test]
fn language_named_is_exact() {
    assert_eq!(language_named("tamil"), Some(Language::Tamil));
    assert_eq!(language_named("Tamil"), None);
}

#[test]
fn rejected_ngram_range_falls_back() {
    let plan = build_analyzer(&def("g", TokenizerConfig::Ngram { min: 4, max: 2 }, vec![]));
    assert!(matches!(plan.tokenizer, TokenizerPlan::Ngram { min: 2, max: 3 }));
    let plan = build_analyzer(&def("g", TokenizerConfig::Ngram { min: 0, max: 2 }, vec![]));
    assert!(matches!(plan.tokenizer, TokenizerPlan::Ngram { min: 2, max: 3 }));
    let plan = build_analyzer(&def("g", TokenizerConfig::Ngram { min: 3, max: 3 }, vec![]));
    assert!(matches!(plan.tokenizer, TokenizerPlan::Ngram { min: 3, max: 3 }));
}
