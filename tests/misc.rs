use quickwit_core::config_format::{config_format_from_subtype, ConfigFormat, UnsupportedContentType};
use quickwit_core::ingest::CommitType;
use quickwit_core::janitor::GarbageCollectorCounters;
use quickwit_core::query::{is_zero, BooleanOperand, FullTextMode, FullTextParams, FullTextQuery, MatchAllOrNone};

#[test]
fn commit_type_query_parameters() {
    assert_eq!(CommitType::Auto.to_query_parameter(), None);
    assert_eq!(CommitType::WaitFor.to_query_parameter(), Some(&[("commit", "wait_for")][..]));
    assert_eq!(CommitType::Force.to_query_parameter(), Some(&[("commit", "force")][..]));
}

#[test]
fn config_format_from_content_subtype() {
    assert_eq!(config_format_from_subtype(&"json".to_string()), Ok(ConfigFormat::Json));
    assert_eq!(config_format_from_subtype(&"yaml".to_string()), Ok(ConfigFormat::Yaml));
    assert_eq!(config_format_from_subtype(&"toml".to_string()), Ok(ConfigFormat::Toml));
    assert_eq!(config_format_from_subtype(&"yoml".to_string()), Err(UnsupportedContentType));
    assert!(UnsupportedContentType.message().contains("unsupported content-type header. choices are"));
}

#[test]
fn full_text_params() {
    assert!(is_zero(&0));
    assert!(!is_zero(&3));
    assert_eq!(FullTextMode::from(BooleanOperand::And), FullTextMode::Bool { operator: BooleanOperand::And });
    let query = FullTextQuery {
        field: "body".to_string(),
        text: "Hello wor".to_string(),
        params: FullTextParams {
            tokenizer: None,
            mode: FullTextMode::BoolPrefix { operator: BooleanOperand::Or, max_expansions: 50 },
            zero_terms_query: MatchAllOrNone::MatchNone,
        },
    };
    assert!(query.has_prefix_term());
    let phrase = FullTextQuery {
        params: FullTextParams { mode: FullTextMode::Phrase { slop: 0 }, ..query.params.clone() },
        ..query.clone()
    };
    assert!(!phrase.has_prefix_term());
}

#[test]
fn garbage_collector_counters_start_at_zero() {
    let counters = GarbageCollectorCounters::new();
    assert_eq!(counters.num_passes, 0);
    assert_eq!(counters.num_deleted_files, 0);
    assert_eq!(counters.num_failed_splits, 0);
}
