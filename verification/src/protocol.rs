//! Requests of the NDJSON sidecar and of the MCP server, and the text that
//! reports search results.
use vstd::prelude::*;
use crate::paths::{relativize, relative_view};
use crate::searcher::{hits_view, Hit, HitView};
use crate::text::{chars_of, str_eq, string_of_chars};

verus! {

/// The decimal digit for `d` (below 10).
pub open spec fn digit_char(d: nat) -> char {
    (('0' as u32) + d) as char
}

/// Decimal representation of `n`, without leading zeros.
pub open spec fn decimal(n: nat) -> Seq<char>
    decreases n,
{
    if n < 10 {
        seq![digit_char(n)]
    } else {
        decimal(n / 10).push(digit_char(n % 10))
    }
}

/// Appends the characters of `s` to `out`.
pub fn push_str_chars(out: &mut Vec<char>, s: &str)
    ensures
        final(out)@ == old(out)@ + s@,
{
    let cs = chars_of(s);
    let ghost start = out@;
    let mut i: usize = 0;
    while i < cs.len()
        invariant
            cs@ == s@,
            i <= cs.len(),
            out@ == start + cs@.subrange(0, i as int),
        decreases cs.len() - i,
    {
        out.push(cs[i]);
        i = i + 1;
        assert(out@ =~= start + cs@.subrange(0, i as int));
    }
    assert(cs@.subrange(0, cs@.len() as int) =~= cs@);
}

/// Appends the decimal digits of `n` to `out`.
pub fn push_decimal(out: &mut Vec<char>, n: usize)
    ensures
        final(out)@ == old(out)@ + decimal(n as nat),
    decreases n,
{
    if n >= 10 {
        push_decimal(out, n / 10);
    }
    let d = (n % 10) as u8;
    let c = ('0' as u8 + d) as char;
    assert(c == digit_char((n % 10) as nat));
    out.push(c);
    assert(decimal(n as nat) == (if n < 10 { seq![] } else { decimal((n / 10) as nat) }).push(c));
}

/// `path:line: text`, the way a hit is shown.
pub open spec fn hit_text(path: Seq<char>, line: nat, text: Seq<char>) -> Seq<char> {
    path + seq![':'] + decimal(line) + seq![':', ' '] + text
}

/// Formats a hit as `path:line: text`, with the path shown relative to `dir`.
pub fn format_hit_line(dir: &str, hit: &Hit) -> (r: String)
    ensures
        r@ == hit_text(relative_view(dir@, hit.file@), hit.line as nat, hit.text@),
{
    let mut out: Vec<char> = Vec::new();
    let p = relativize(dir, hit.file.as_str());
    push_str_chars(&mut out, p.as_str());
    out.push(':');
    push_decimal(&mut out, hit.line);
    out.push(':');
    out.push(' ');
    push_str_chars(&mut out, hit.text.as_str());
    assert(out@ =~= hit_text(relative_view(dir@, hit.file@), hit.line as nat, hit.text@));
    string_of_chars(&out)
}

/// The lines of a result report, one per hit.
pub open spec fn hits_text(dir: Seq<char>, hs: Seq<HitView>) -> Seq<char>
    decreases hs.len(),
{
    if hs.len() == 0 {
        seq![]
    } else {
        hits_text(dir, hs.drop_last()) + hit_text(
            relative_view(dir, hs.last().file),
            hs.last().line as nat,
            hs.last().text,
        ) + seq!['\n']
    }
}

/// The MCP search report: `No matches.`, or one `path:line: text` line per
/// hit followed by the result count and, when the candidate set was capped,
/// a note.
pub open spec fn hits_report(dir: Seq<char>, hs: Seq<HitView>, truncated: bool) -> Seq<char> {
    if hs.len() == 0 {
        "No matches."@
    } else {
        hits_text(dir, hs) + seq!['\n'] + decimal(hs.len()) + " results"@ + if truncated {
            "\n(note: candidate limit reached — results may be incomplete; narrow the query for full coverage)"@
        } else {
            seq![]
        }
    }
}

/// Formats search hits for an MCP tool result, paths relative to `dir`.
pub fn format_hits(dir: &str, hits: &[Hit], truncated: bool) -> (r: String)
    ensures
        r@ == hits_report(dir@, hits_view(hits@), truncated),
{
    if hits.len() == 0 {
        return crate::text::str_to_string("No matches.");
    }
    let ghost hv = hits_view(hits@);
    let mut out: Vec<char> = Vec::new();
    let mut i: usize = 0;
    while i < hits.len()
        invariant
            hv == hits_view(hits@),
            i <= hits.len(),
            out@ == hits_text(dir@, hv.subrange(0, i as int)),
        decreases hits.len() - i,
    {
        let line = format_hit_line(dir, &hits[i]);
        push_str_chars(&mut out, line.as_str());
        out.push('\n');
        let ghost sub = hv.subrange(0, i + 1);
        assert(sub.drop_last() =~= hv.subrange(0, i as int));
        assert(sub.last() == hits@[i as int]@);
        i = i + 1;
    }
    assert(hv.subrange(0, hits@.len() as int) =~= hv);
    out.push('\n');
    push_decimal(&mut out, hits.len());
    push_str_chars(&mut out, " results");
    if truncated {
        push_str_chars(
            &mut out,
            "\n(note: candidate limit reached — results may be incomplete; narrow the query for full coverage)",
        );
    }
    assert(out@ =~= hits_report(dir@, hv, truncated));
    string_of_chars(&out)
}

} // verus!

verus! {

/// The view of an optional string, `""` when absent.
pub open spec fn or_empty(o: Option<String>) -> Seq<char> {
    match o {
        Some(s) => s@,
        None => ""@,
    }
}

/// The fields of a sidecar request line that the daemon reads.
pub struct ServeRequest {
    pub cmd: Option<String>,
    pub query: Option<String>,
    pub regex: Option<bool>,
    pub max: Option<u64>,
    pub case_sensitive: Option<bool>,
}

/// A sidecar command.
pub enum ServeCommand {
    Build,
    Sync,
    Search { query: String, regex: bool, max: usize, case_sensitive: bool },
    Watch,
    Stop,
    /// Any other `cmd` (or none); it is answered with an error.
    Unknown(Option<String>),
}

/// Results returned by a sidecar search when the request names no maximum.
pub const DEFAULT_SERVE_MAX: u64 = 300;

/// The view of `cmd`, if present.
pub open spec fn cmd_view(req: ServeRequest) -> Option<Seq<char>> {
    crate::encoding::opt_string_view(req.cmd)
}

/// Decides what a sidecar request asks for. A search takes its query (`""`
/// when absent), `regex` (default false), `max` (default 300) and
/// `caseSensitive` (default false) from the request.
pub fn route_serve(req: ServeRequest) -> (r: ServeCommand)
    ensures
        cmd_view(req) == Some("build"@) ==> r is Build,
        cmd_view(req) == Some("sync"@) ==> r is Sync,
        cmd_view(req) == Some("watch"@) ==> r is Watch,
        cmd_view(req) == Some("stop"@) ==> r is Stop,
        cmd_view(req) == Some("search"@) ==> (r matches ServeCommand::Search {
            query,
            regex,
            max,
            case_sensitive,
        } && query@ == or_empty(req.query) && regex == (match req.regex {
            Some(b) => b,
            None => false,
        }) && max == (match req.max {
            Some(m) => m,
            None => DEFAULT_SERVE_MAX,
        }) as usize && case_sensitive == (match req.case_sensitive {
            Some(b) => b,
            None => false,
        })),
        !(cmd_view(req) == Some("build"@) || cmd_view(req) == Some("sync"@) || cmd_view(req)
            == Some("watch"@) || cmd_view(req) == Some("stop"@) || cmd_view(req) == Some(
            "search"@,
        )) ==> (r matches ServeCommand::Unknown(c) && crate::encoding::opt_string_view(c)
            == cmd_view(req)),
{
    proof {
        reveal_strlit("build");
        reveal_strlit("sync");
        reveal_strlit("search");
        reveal_strlit("watch");
        reveal_strlit("stop");
        assert("build"@.len() != "sync"@.len());
        assert("build"@.len() != "search"@.len());
        assert("build"@[0] != "watch"@[0]);
        assert("build"@.len() != "stop"@.len());
        assert("sync"@.len() != "search"@.len());
        assert("sync"@.len() != "watch"@.len());
        assert("sync"@[1] != "stop"@[1]);
        assert("search"@.len() != "watch"@.len());
        assert("search"@.len() != "stop"@.len());
        assert("watch"@.len() != "stop"@.len());
    }
    let ServeRequest { cmd, query, regex, max, case_sensitive } = req;
    let c = match cmd {
        Some(c) => c,
        None => {
            return ServeCommand::Unknown(None);
        },
    };
    if str_eq(c.as_str(), "build") {
        ServeCommand::Build
    } else if str_eq(c.as_str(), "sync") {
        ServeCommand::Sync
    } else if str_eq(c.as_str(), "search") {
        let query = match query {
            Some(q) => q,
            None => crate::text::str_to_string(""),
        };
        let regex = match regex {
            Some(b) => b,
            None => false,
        };
        let m = match max {
            Some(m) => m,
            None => DEFAULT_SERVE_MAX,
        };
        let case_sensitive = match case_sensitive {
            Some(b) => b,
            None => false,
        };
        ServeCommand::Search { query, regex, max: m as usize, case_sensitive }
    } else if str_eq(c.as_str(), "watch") {
        ServeCommand::Watch
    } else if str_eq(c.as_str(), "stop") {
        ServeCommand::Stop
    } else {
        ServeCommand::Unknown(Some(c))
    }
}

/// A JSON-RPC error: code and message.
pub struct McpError {
    pub code: i64,
    pub message: String,
}

/// JSON-RPC: method not found.
pub const METHOD_NOT_FOUND: i64 = -32601;

/// JSON-RPC: invalid params.
pub const INVALID_PARAMS: i64 = -32602;

/// An MCP request method.
pub enum McpMethod {
    Initialize,
    ToolsList,
    ToolsCall,
    Ping,
}

/// `prefix` followed by `s`, as a string.
fn concat_message(prefix: &str, s: &str) -> (r: String)
    ensures
        r@ == prefix@ + s@,
{
    let mut out: Vec<char> = Vec::new();
    push_str_chars(&mut out, prefix);
    push_str_chars(&mut out, s);
    string_of_chars(&out)
}

/// Decides how the MCP server answers a message: a notification (no `id`)
/// gets no answer (`None`); a known method is routed; any other method gets
/// a "method not found" error.
pub fn route_mcp(has_id: bool, method: &str) -> (r: Option<Result<McpMethod, McpError>>)
    ensures
        !has_id <==> r is None,
        has_id && method@ == "initialize"@ ==> r matches Some(Ok(McpMethod::Initialize)),
        has_id && method@ == "tools/list"@ ==> r matches Some(Ok(McpMethod::ToolsList)),
        has_id && method@ == "tools/call"@ ==> r matches Some(Ok(McpMethod::ToolsCall)),
        has_id && method@ == "ping"@ ==> r matches Some(Ok(McpMethod::Ping)),
        has_id && !(method@ == "initialize"@ || method@ == "tools/list"@ || method@
            == "tools/call"@ || method@ == "ping"@) ==> (r matches Some(Err(e)) && e.code
            == METHOD_NOT_FOUND && e.message@ == "method not found: "@ + method@),
{
    proof {
        reveal_strlit("initialize");
        reveal_strlit("tools/list");
        reveal_strlit("tools/call");
        reveal_strlit("ping");
        assert("initialize"@[0] != "tools/list"@[0]);
        assert("initialize"@[0] != "tools/call"@[0]);
        assert("initialize"@.len() != "ping"@.len());
        assert("tools/list"@[6] != "tools/call"@[6]);
        assert("tools/list"@.len() != "ping"@.len());
        assert("tools/call"@.len() != "ping"@.len());
    }
    if !has_id {
        return None;
    }
    if str_eq(method, "initialize") {
        Some(Ok(McpMethod::Initialize))
    } else if str_eq(method, "tools/list") {
        Some(Ok(McpMethod::ToolsList))
    } else if str_eq(method, "tools/call") {
        Some(Ok(McpMethod::ToolsCall))
    } else if str_eq(method, "ping") {
        Some(Ok(McpMethod::Ping))
    } else {
        Some(
            Err(
                McpError {
                    code: METHOD_NOT_FOUND,
                    message: concat_message("method not found: ", method),
                },
            ),
        )
    }
}

/// The protocol version answered to `initialize`: the one the client names,
/// or `2024-11-05` when it names none.
pub fn protocol_version(requested: Option<&str>) -> (r: String)
    ensures
        r@ == (match requested {
            Some(v) => v@,
            None => "2024-11-05"@,
        }),
{
    match requested {
        Some(v) => crate::text::str_to_string(v),
        None => crate::text::str_to_string("2024-11-05"),
    }
}

/// An MCP tool.
#[derive(PartialEq, Eq, Structural, Clone, Copy, Debug)]
pub enum McpTool {
    SearchCode,
    SearchRegex,
    BuildIndex,
    SyncIndex,
    IndexStatus,
}

/// The tool a `tools/call` names; a missing or unknown name is an
/// invalid-params error.
pub fn tool_for_name(name: Option<&str>) -> (r: Result<McpTool, McpError>)
    ensures
        name is None ==> (r matches Err(e) && e.code == INVALID_PARAMS && e.message@
            == "missing tool name"@),
        name matches Some(n) ==> {
            &&& n@ == "search_code"@ ==> r == Ok::<McpTool, McpError>(McpTool::SearchCode)
            &&& n@ == "search_regex"@ ==> r == Ok::<McpTool, McpError>(McpTool::SearchRegex)
            &&& n@ == "build_index"@ ==> r == Ok::<McpTool, McpError>(McpTool::BuildIndex)
            &&& n@ == "sync_index"@ ==> r == Ok::<McpTool, McpError>(McpTool::SyncIndex)
            &&& n@ == "index_status"@ ==> r == Ok::<McpTool, McpError>(McpTool::IndexStatus)
            &&& !(n@ == "search_code"@ || n@ == "search_regex"@ || n@ == "build_index"@ || n@
                == "sync_index"@ || n@ == "index_status"@) ==> (r matches Err(e) && e.code
                == INVALID_PARAMS && e.message@ == "unknown tool: "@ + n@)
        },
{
    proof {
        reveal_strlit("search_code");
        reveal_strlit("search_regex");
        reveal_strlit("build_index");
        reveal_strlit("sync_index");
        reveal_strlit("index_status");
        assert("search_code"@.len() != "search_regex"@.len());
        assert("search_code"@[0] != "build_index"@[0]);
        assert("search_code"@.len() != "sync_index"@.len());
        assert("search_code"@.len() != "index_status"@.len());
        assert("search_regex"@.len() != "build_index"@.len());
        assert("search_regex"@.len() != "sync_index"@.len());
        assert("search_regex"@[0] != "index_status"@[0]);
        assert("build_index"@.len() != "sync_index"@.len());
        assert("build_index"@.len() != "index_status"@.len());
        assert("sync_index"@.len() != "index_status"@.len());
    }
    let n = match name {
        Some(n) => n,
        None => {
            return Err(
                McpError { code: INVALID_PARAMS, message: crate::text::str_to_string("missing tool name") },
            );
        },
    };
    if str_eq(n, "search_code") {
        Ok(McpTool::SearchCode)
    } else if str_eq(n, "search_regex") {
        Ok(McpTool::SearchRegex)
    } else if str_eq(n, "build_index") {
        Ok(McpTool::BuildIndex)
    } else if str_eq(n, "sync_index") {
        Ok(McpTool::SyncIndex)
    } else if str_eq(n, "index_status") {
        Ok(McpTool::IndexStatus)
    } else {
        Err(McpError { code: INVALID_PARAMS, message: concat_message("unknown tool: ", n) })
    }
}

/// Results returned by an MCP search when no `max_results` is given.
pub const DEFAULT_MAX_RESULTS: u64 = 100;

/// The argument that holds the query of a search tool.
pub open spec fn query_key(regex: bool) -> Seq<char> {
    if regex {
        "pattern"@
    } else {
        "query"@
    }
}

/// Reads the arguments of a search tool: the query (from `pattern` for a
/// regex search, `query` otherwise) must be non-empty; the maximum defaults
/// to 100 and `case_sensitive` to false. A missing query is reported as
/// "missing `<key>`".
pub fn search_args(
    regex: bool,
    query: Option<&str>,
    max_results: Option<u64>,
    case_sensitive: Option<bool>,
) -> (r: Result<(String, usize, bool), String>)
    ensures
        (match query {
            Some(q) => q@.len() == 0,
            None => true,
        }) <==> r is Err,
        r matches Err(m) ==> m@ == "missing `"@ + query_key(regex) + "`"@,
        r matches Ok((q, max, cs)) ==> {
            &&& query matches Some(q0) && q@ == q0@
            &&& max == (match max_results {
                Some(m) => m,
                None => DEFAULT_MAX_RESULTS,
            }) as usize
            &&& cs == (match case_sensitive {
                Some(b) => b,
                None => false,
            })
        },
{
    proof {
        reveal_strlit("");
    }
    let q = match query {
        Some(q) => q,
        None => "",
    };
    if q.is_empty() {
        let key = if regex { "pattern" } else { "query" };
        let mut out: Vec<char> = Vec::new();
        push_str_chars(&mut out, "missing `");
        push_str_chars(&mut out, key);
        push_str_chars(&mut out, "`");
        return Err(string_of_chars(&out));
    }
    let m = match max_results {
        Some(m) => m,
        None => DEFAULT_MAX_RESULTS,
    };
    let cs = match case_sensitive {
        Some(b) => b,
        None => false,
    };
    Ok((crate::text::str_to_string(q), m as usize, cs))
}

} // verus!
