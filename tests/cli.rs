use quickwit_core::cli::{
    ClearIndexArgs, ClientArgs, CliCommand, CliError, DeleteIndexArgs, DescribeIndexArgs,
    DescribeSplitArgs, ExtractSplitArgs, IndexCliCommand, LocalSearchArgs, MergeArgs,
    SearchIndexArgs, SplitCliCommand, ToolCliCommand,
};

fn args(items: &[&str]) -> Vec<String> {
    items.iter().map(|s| s.to_string()).collect()
}

#[test]
fn test_parse_clear_args() {
    let command =
        CliCommand::parse_cli_args(&args(&["index", "clear", "--index", "wikipedia"])).unwrap();
    let expected_cmd = CliCommand::Index(IndexCliCommand::Clear(ClearIndexArgs {
        client_args: ClientArgs::default(),
        index_id: "wikipedia".to_string(),
        assume_yes: false,
    }));
    assert_eq!(command, expected_cmd);

    let command =
        CliCommand::parse_cli_args(&args(&["index", "clear", "--index", "wikipedia", "--yes"]))
            .unwrap();
    let expected_cmd = CliCommand::Index(IndexCliCommand::Clear(ClearIndexArgs {
        client_args: ClientArgs::default(),
        index_id: "wikipedia".to_string(),
        assume_yes: true,
    }));
    assert_eq!(command, expected_cmd);
}

#[test]
fn test_parse_search_args() {
    let command = CliCommand::parse_cli_args(&args(&[
        "index",
        "search",
        "--index",
        "wikipedia",
        "--query",
        "Barack Obama",
    ]))
    .unwrap();
    assert!(matches!(
        command,
        CliCommand::Index(IndexCliCommand::Search(SearchIndexArgs {
            index_id,
            query,
            max_hits: 20,
            start_offset: 0,
            search_fields: None,
            snippet_fields: None,
            start_timestamp: None,
            end_timestamp: None,
            aggregation: None,
            ..
        })) if &index_id == "wikipedia" && &query == "Barack Obama"
    ));

    let command = CliCommand::parse_cli_args(&args(&[
        "index",
        "search",
        "--index",
        "wikipedia",
        "--query",
        "Barack Obama",
        "--max-hits",
        "50",
        "--start-offset",
        "100",
        "--start-timestamp",
        "0",
        "--end-timestamp",
        "1",
        "--search-fields",
        "title",
        "url",
        "--snippet-fields",
        "body",
    ]))
    .unwrap();
    assert!(matches!(
        command,
        CliCommand::Index(IndexCliCommand::Search(SearchIndexArgs {
            client_args: _,
            index_id,
            query,
            aggregation: None,
            max_hits: 50,
            start_offset: 100,
            search_fields: Some(search_field_names),
            snippet_fields: Some(snippet_field_names),
            start_timestamp: Some(0),
            end_timestamp: Some(1),
            sort_by_score: false,
        })) if &index_id == "wikipedia"
              && query == "Barack Obama"
              && search_field_names == vec!["title".to_string(), "url".to_string()]
              && snippet_field_names == vec!["body".to_string()]
    ));
}

#[test]
fn test_parse_local_search_args() {
    let command = CliCommand::parse_cli_args(&args(&[
        "tool",
        "local-search",
        "--index",
        "wikipedia",
        "--query",
        "Barack Obama",
    ]))
    .unwrap();
    assert!(matches!(
        command,
        CliCommand::Tool(ToolCliCommand::LocalSearch(LocalSearchArgs {
            index_id,
            query,
            max_hits: 20,
            start_offset: 0,
            search_fields: None,
            snippet_fields: None,
            start_timestamp: None,
            end_timestamp: None,
            aggregation: None,
            ..
        })) if &index_id == "wikipedia" && &query == "Barack Obama"
    ));

    let command = CliCommand::parse_cli_args(&args(&[
        "tool",
        "local-search",
        "--index",
        "wikipedia",
        "--query",
        "Barack Obama",
        "--max-hits",
        "50",
        "--start-offset",
        "100",
        "--start-timestamp",
        "0",
        "--end-timestamp",
        "1",
        "--search-fields",
        "title",
        "url",
        "--snippet-fields",
        "body",
        "--sort-by-field=-score",
    ]))
    .unwrap();
    assert!(matches!(
        command,
        CliCommand::Tool(ToolCliCommand::LocalSearch(LocalSearchArgs {
            config_uri: _,
            index_id,
            query,
            aggregation: None,
            max_hits: 50,
            start_offset: 100,
            search_fields: Some(search_field_names),
            snippet_fields: Some(snippet_field_names),
            start_timestamp: Some(0),
            end_timestamp: Some(1),
            sort_by_field: Some(sort_by_field),
        })) if &index_id == "wikipedia"
              && query == "Barack Obama"
              && search_field_names == vec!["title".to_string(), "url".to_string()]
              && snippet_field_names == vec!["body".to_string()]
              && sort_by_field == "-score"
    ));
}

#[test]
fn test_parse_delete_args() {
    let command =
        CliCommand::parse_cli_args(&args(&["index", "delete", "--index", "wikipedia"])).unwrap();
    assert!(matches!(
        command,
        CliCommand::Index(IndexCliCommand::Delete(DeleteIndexArgs {
            index_id,
            dry_run: false,
            ..
        })) if &index_id == "wikipedia"
    ));

    let command = CliCommand::parse_cli_args(&args(&[
        "index",
        "delete",
        "--index",
        "wikipedia",
        "--dry-run",
    ]))
    .unwrap();
    assert!(matches!(
        command,
        CliCommand::Index(IndexCliCommand::Delete(DeleteIndexArgs {
            index_id,
            dry_run: true,
            ..
        })) if &index_id == "wikipedia"
    ));
}

#[test]
fn test_parse_describe_index_args() {
    let command =
        CliCommand::parse_cli_args(&args(&["index", "describe", "--index", "wikipedia"])).unwrap();
    assert!(matches!(
        command,
        CliCommand::Index(IndexCliCommand::Describe(DescribeIndexArgs {
            index_id,
            ..
        })) if &index_id == "wikipedia"
    ));
}

#[test]
fn test_parse_split_describe_args() {
    let command = CliCommand::parse_cli_args(&args(&[
        "split",
        "describe",
        "--index",
        "wikipedia",
        "--split",
        "ABC",
    ]))
    .unwrap();
    assert!(matches!(
        command,
        CliCommand::Split(SplitCliCommand::Describe(DescribeSplitArgs {
            index_id,
            split_id,
            verbose: false,
            ..
        })) if &index_id == "wikipedia" && &split_id == "ABC"
    ));
}

#[test]
fn test_parse_split_extract_args() {
    let command = CliCommand::parse_cli_args(&args(&[
        "tool",
        "extract-split",
        "--index",
        "wikipedia",
        "--split",
        "ABC",
        "--target-dir",
        "datadir",
        "--config",
        "/config.yaml",
    ]))
    .unwrap();
    assert!(matches!(
        command,
        CliCommand::Tool(ToolCliCommand::ExtractSplit(ExtractSplitArgs {
            index_id,
            split_id,
            target_dir,
            ..
        })) if &index_id == "wikipedia" && &split_id == "ABC" && target_dir == "datadir"
    ));
}

#[test]
fn test_parse_merge_args() {
    let command = CliCommand::parse_cli_args(&args(&[
        "tool",
        "merge",
        "--index",
        "wikipedia",
        "--source",
        "ingest-source",
        "--config",
        "/config.yaml",
    ]))
    .unwrap();
    assert!(matches!(
        command,
        CliCommand::Tool(ToolCliCommand::Merge(MergeArgs {
            index_id,
            source_id,
            ..
        })) if &index_id == "wikipedia" && source_id == "ingest-source"
    ));
}

#[test]
fn cli_rejects_unknown_command_and_flag() {
    assert_eq!(
        CliCommand::parse_cli_args(&args(&["new", "--index-uri", "file:///indexes/wikipedia"])),
        Err(CliError::UnknownCommand)
    );
    assert_eq!(
        CliCommand::parse_cli_args(&args(&["index", "clear", "--index", "w", "--force"])),
        Err(CliError::UnexpectedArgument)
    );
    assert_eq!(
        CliCommand::parse_cli_args(&args(&["index", "clear", "stray", "--index", "w"])),
        Err(CliError::UnexpectedArgument)
    );
}

#[test]
fn cli_reports_missing_and_invalid_values() {
    assert_eq!(
        CliCommand::parse_cli_args(&args(&["index", "describe"])),
        Err(CliError::MissingArgument)
    );
    assert_eq!(
        CliCommand::parse_cli_args(&args(&[
            "index", "search", "--index", "w", "--query", "q", "--max-hits", "ten"
        ])),
        Err(CliError::InvalidValue)
    );
    assert_eq!(
        CliCommand::parse_cli_args(&args(&["index", "clear", "--index", "a", "b"])),
        Err(CliError::InvalidValue)
    );
}

#[test]
fn cli_reads_negative_timestamps_and_endpoint() {
    let command = CliCommand::parse_cli_args(&args(&[
        "index",
        "search",
        "--index",
        "w",
        "--query",
        "q",
        "--start-timestamp",
        "-5",
        "--endpoint=http://127.0.0.1:8000",
    ]))
    .unwrap();
    match command {
        CliCommand::Index(IndexCliCommand::Search(search)) => {
            assert_eq!(search.start_timestamp, Some(-5));
            assert_eq!(search.client_args.cluster_endpoint, "http://127.0.0.1:8000");
        }
        other => panic!("unexpected command {other:?}"),
    }
}
