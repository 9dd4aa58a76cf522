use indexify::encoding::{enc_by_name, TextEncoding};
use indexify::paths::{first_root_encoding, relativize, root_encoding};
use indexify::protocol::{
    format_hit_line, format_hits, protocol_version, route_mcp, route_serve, search_args,
    tool_for_name, McpMethod, McpTool, ServeCommand, ServeRequest, INVALID_PARAMS,
    METHOD_NOT_FOUND,
};
use indexify::searcher::Hit;
use indexify::watcher::{
    is_index_relevant, resolve_roots, watch_action, PendingPaths, WatchAction, WatchEventKind,
};

fn hit(file: &str, line: usize, text: &str) -> Hit {
    Hit { file: file.to_string(), line, text: text.to_string() }
}

fn request(cmd: Option<&str>) -> ServeRequest {
    ServeRequest {
        cmd: cmd.map(|c| c.to_string()),
        query: None,
        regex: None,
        max: None,
        case_sensitive: None,
    }
}

// --- encodings ---

#[test]
fn encoding_labels() {
    assert_eq!(enc_by_name("utf-8"), TextEncoding::Utf8);
    assert_eq!(enc_by_name("shift_jis"), TextEncoding::ShiftJis);
    assert_eq!(enc_by_name("Shift_JIS"), TextEncoding::ShiftJis);
    assert_eq!(enc_by_name("euc-jp"), TextEncoding::EucJp);
    // an unknown label, or another encoding, falls back to UTF-8
    assert_eq!(enc_by_name("no-such-encoding"), TextEncoding::Utf8);
    assert_eq!(enc_by_name("latin1"), TextEncoding::Utf8);
}

#[test]
fn encoding_names_round_trip() {
    for e in [TextEncoding::Utf8, TextEncoding::ShiftJis, TextEncoding::EucJp] {
        assert_eq!(enc_by_name(e.name()), e);
    }
    assert_eq!(TextEncoding::ShiftJis.name(), "Shift_JIS");
    assert_eq!(TextEncoding::EucJp.name(), "EUC-JP");
    assert_eq!(TextEncoding::Utf8.name(), "UTF-8");
}

// --- paths ---

#[test]
fn relativize_strips_directory() {
    assert_eq!(relativize("/repo", "/repo/src/a.rs"), "src/a.rs");
    assert_eq!(relativize("/repo/", "/repo/src/a.rs"), "src/a.rs");
    // not under the directory: shown as given
    assert_eq!(relativize("/repo", "/elsewhere/x.rs"), "/elsewhere/x.rs");
    // component-wise, not textual
    assert_eq!(relativize("/repo", "/repository/x.rs"), "/repository/x.rs");
}

#[test]
fn root_encoding_first_matching_root() {
    let roots = vec![
        ("/a".to_string(), TextEncoding::Utf8),
        ("/a/b".to_string(), TextEncoding::ShiftJis),
        ("/c".to_string(), TextEncoding::EucJp),
    ];
    assert_eq!(root_encoding(&roots, "/a/b/x.cbl"), Some(TextEncoding::Utf8));
    assert_eq!(root_encoding(&roots, "/c/y.cbl"), Some(TextEncoding::EucJp));
    assert_eq!(root_encoding(&roots, "/ab/z"), None);
    assert_eq!(root_encoding(&roots, "/z"), None);
}

// --- watcher ---

#[test]
fn watcher_relevant_events() {
    assert!(is_index_relevant(WatchEventKind::Create));
    assert!(is_index_relevant(WatchEventKind::Modify));
    assert!(is_index_relevant(WatchEventKind::Remove));
    assert!(!is_index_relevant(WatchEventKind::Access));
    assert!(!is_index_relevant(WatchEventKind::Any));
    assert!(!is_index_relevant(WatchEventKind::Other));
}

#[test]
fn watcher_resolves_root_encodings() {
    let roots = vec![
        ("/r".to_string(), "shift_jis".to_string()),
        ("/s".to_string(), "bogus".to_string()),
        ("/t".to_string(), "EUC-JP".to_string()),
    ];
    let r = resolve_roots(&roots);
    assert_eq!(
        r,
        vec![
            ("/r".to_string(), TextEncoding::ShiftJis),
            ("/s".to_string(), TextEncoding::Utf8),
            ("/t".to_string(), TextEncoding::EucJp),
        ]
    );
}

#[test]
fn watcher_pending_paths_once_each() {
    let mut p = PendingPaths::new();
    assert!(p.is_empty());
    let a = "/r/a.rs".to_string();
    let b = "/r/b.rs".to_string();
    p.collect_event(WatchEventKind::Modify, &[a.clone(), b.clone(), a.clone()]);
    p.collect_event(WatchEventKind::Access, &["/r/c.rs".to_string()]);
    p.collect_event(WatchEventKind::Other, &["/r/d.rs".to_string()]);
    p.collect_event(WatchEventKind::Remove, &[b.clone(), "/r/e.rs".to_string()]);
    p.collect_event(WatchEventKind::Create, &[]);
    assert!(!p.is_empty());
    assert_eq!(p.drain(), vec![a, b, "/r/e.rs".to_string()]);
    assert!(p.is_empty());
    assert!(p.drain().is_empty());
}

// --- result formatting ---

#[test]
fn format_hit_line_relative_path() {
    assert_eq!(format_hit_line("/repo", &hit("/repo/src/a.rs", 3, "fn main()")), "src/a.rs:3: fn main()");
    assert_eq!(format_hit_line("/repo", &hit("/x/b.rs", 120, "")), "/x/b.rs:120: ");
}

#[test]
fn format_hits_no_matches() {
    assert_eq!(format_hits("/repo", &[], false), "No matches.");
    assert_eq!(format_hits("/repo", &[], true), "No matches.");
}

#[test]
fn format_hits_report() {
    let hs = vec![hit("/repo/src/a.rs", 3, "fn main()"), hit("/other/b.rs", 12, "x")];
    assert_eq!(format_hits("/repo", &hs, false), "src/a.rs:3: fn main()\n/other/b.rs:12: x\n\n2 results");
    assert_eq!(
        format_hits("/repo", &hs, true),
        "src/a.rs:3: fn main()\n/other/b.rs:12: x\n\n2 results\n(note: candidate limit reached — results may be incomplete; narrow the query for full coverage)"
    );
}

// --- sidecar requests ---

#[test]
fn serve_routes_commands() {
    assert!(matches!(route_serve(request(Some("build"))), ServeCommand::Build));
    assert!(matches!(route_serve(request(Some("sync"))), ServeCommand::Sync));
    assert!(matches!(route_serve(request(Some("watch"))), ServeCommand::Watch));
    assert!(matches!(route_serve(request(Some("stop"))), ServeCommand::Stop));
    match route_serve(request(Some("explode"))) {
        ServeCommand::Unknown(Some(c)) => assert_eq!(c, "explode"),
        _ => panic!("expected an unknown command"),
    }
    assert!(matches!(route_serve(request(None)), ServeCommand::Unknown(None)));
}

#[test]
fn serve_search_defaults() {
    match route_serve(request(Some("search"))) {
        ServeCommand::Search { query, regex, max, case_sensitive } => {
            assert_eq!(query, "");
            assert!(!regex);
            assert_eq!(max, 300);
            assert!(!case_sensitive);
        }
        _ => panic!("expected a search"),
    }
    let req = ServeRequest {
        cmd: Some("search".to_string()),
        query: Some("foo".to_string()),
        regex: Some(true),
        max: Some(7),
        case_sensitive: Some(true),
    };
    match route_serve(req) {
        ServeCommand::Search { query, regex, max, case_sensitive } => {
            assert_eq!(query, "foo");
            assert!(regex);
            assert_eq!(max, 7);
            assert!(case_sensitive);
        }
        _ => panic!("expected a search"),
    }
}

// --- MCP ---

#[test]
fn mcp_protocol_version() {
    assert_eq!(protocol_version(None), "2024-11-05");
    assert_eq!(protocol_version(Some("2025-03-26")), "2025-03-26");
}

#[test]
fn mcp_routes_methods() {
    assert!(route_mcp(false, "initialize").is_none());
    assert!(route_mcp(false, "anything").is_none());
    assert!(matches!(route_mcp(true, "initialize"), Some(Ok(McpMethod::Initialize))));
    assert!(matches!(route_mcp(true, "tools/list"), Some(Ok(McpMethod::ToolsList))));
    assert!(matches!(route_mcp(true, "tools/call"), Some(Ok(McpMethod::ToolsCall))));
    assert!(matches!(route_mcp(true, "ping"), Some(Ok(McpMethod::Ping))));
    match route_mcp(true, "resources/list") {
        Some(Err(e)) => {
            assert_eq!(e.code, METHOD_NOT_FOUND);
            assert_eq!(e.code, -32601);
            assert_eq!(e.message, "method not found: resources/list");
        }
        _ => panic!("expected method not found"),
    }
}

#[test]
fn mcp_tool_names() {
    assert_eq!(tool_for_name(Some("search_code")).ok(), Some(McpTool::SearchCode));
    assert_eq!(tool_for_name(Some("search_regex")).ok(), Some(McpTool::SearchRegex));
    assert_eq!(tool_for_name(Some("build_index")).ok(), Some(McpTool::BuildIndex));
    assert_eq!(tool_for_name(Some("sync_index")).ok(), Some(McpTool::SyncIndex));
    assert_eq!(tool_for_name(Some("index_status")).ok(), Some(McpTool::IndexStatus));
    match tool_for_name(None) {
        Err(e) => {
            assert_eq!(e.code, INVALID_PARAMS);
            assert_eq!(e.code, -32602);
            assert_eq!(e.message, "missing tool name");
        }
        Ok(_) => panic!("expected an error"),
    }
    match tool_for_name(Some("delete_everything")) {
        Err(e) => {
            assert_eq!(e.code, INVALID_PARAMS);
            assert_eq!(e.message, "unknown tool: delete_everything");
        }
        Ok(_) => panic!("expected an error"),
    }
}

#[test]
fn mcp_search_arguments() {
    assert_eq!(search_args(false, Some("foo"), None, None), Ok(("foo".to_string(), 100, false)));
    assert_eq!(search_args(true, Some("a.*b"), Some(7), None), Ok(("a.*b".to_string(), 7, false)));
    assert_eq!(
        search_args(false, Some("calculateTotal"), None, Some(true)),
        Ok(("calculateTotal".to_string(), 100, true))
    );
    assert_eq!(search_args(true, Some("x_y"), Some(3), Some(false)), Ok(("x_y".to_string(), 3, false)));
    assert_eq!(search_args(false, None, None, None), Err("missing `query`".to_string()));
    assert_eq!(search_args(true, None, Some(3), Some(true)), Err("missing `pattern`".to_string()));
    assert_eq!(search_args(false, Some(""), None, None), Err("missing `query`".to_string()));
}

#[test]
fn first_root_from_prefix_results() {
    let roots = vec![
        ("/a".to_string(), TextEncoding::Utf8),
        ("/a/b".to_string(), TextEncoding::ShiftJis),
        ("/c".to_string(), TextEncoding::EucJp),
    ];
    assert_eq!(first_root_encoding(&roots, &[false, true, true]), Some(TextEncoding::ShiftJis));
    assert_eq!(first_root_encoding(&roots, &[true, true, false]), Some(TextEncoding::Utf8));
    assert_eq!(first_root_encoding(&roots, &[false, false, true]), Some(TextEncoding::EucJp));
    assert_eq!(first_root_encoding(&roots, &[false, false, false]), None);
}

#[test]
fn watcher_next_action() {
    assert_eq!(watch_action(false, false), WatchAction::Flush);
    assert_eq!(watch_action(true, false), WatchAction::Flush);
    assert_eq!(watch_action(true, true), WatchAction::Stop);
    assert_eq!(watch_action(false, true), WatchAction::Collect);
}
