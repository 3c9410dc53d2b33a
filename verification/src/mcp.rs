//! The decisions of the Model Context Protocol server: which tool a call
//! names, and the API address a request goes to.

use vstd::prelude::*;
use crate::text::{owned, push_str, starts_with};
use vstd::string::*;

verus! {

/// A tool of the server.
#[derive(Debug, Clone, Copy, PartialEq, Eq, Structural)]
pub enum McpTool {
    /// `tesseract_query`: run a VQL query.
    Query,
    /// `tesseract_insert`: insert a vector.
    Insert,
    /// `tesseract_status`: check the server's health.
    Status,
}

/// `a` and `b` hold the same text.
fn same(a: &str, b: &str) -> (r: bool)
    ensures
        r == (a@ == b@),
{
    let r = a.unicode_len() == b.unicode_len() && starts_with(a, b);
    proof {
        if a@.len() == b@.len() {
            assert(a@.subrange(0, b@.len() as int) =~= a@);
        }
    }
    r
}

/// The tool a call names; an unknown name is refused with
/// `unknown tool: <name>`.
pub fn tool_for(name: &str) -> (r: Result<McpTool, String>)
    ensures
        name@ == "tesseract_query"@ ==> r == Ok::<McpTool, String>(McpTool::Query),
        name@ == "tesseract_insert"@ ==> r == Ok::<McpTool, String>(McpTool::Insert),
        name@ == "tesseract_status"@ ==> r == Ok::<McpTool, String>(McpTool::Status),
        name@ != "tesseract_query"@ && name@ != "tesseract_insert"@ && name@ != "tesseract_status"@
            ==> (r matches Err(m) && m@ == "unknown tool: "@ + name@),
{
    proof {
        reveal_strlit("tesseract_query");
        reveal_strlit("tesseract_insert");
        reveal_strlit("tesseract_status");
        assert("tesseract_query"@[10] != "tesseract_insert"@[10]);
        assert("tesseract_query"@[10] != "tesseract_status"@[10]);
        assert("tesseract_insert"@[10] != "tesseract_status"@[10]);
    }
    if same(name, "tesseract_query") {
        Ok(McpTool::Query)
    } else if same(name, "tesseract_insert") {
        Ok(McpTool::Insert)
    } else if same(name, "tesseract_status") {
        Ok(McpTool::Status)
    } else {
        let mut m = owned("unknown tool: ");
        push_str(&mut m, name);
        Err(m)
    }
}

/// `s` without its trailing `/` characters.
pub open spec fn without_trailing_slashes(s: Seq<char>) -> Seq<char>
    decreases s.len(),
{
    if s.len() > 0 && s.last() == '/' {
        without_trailing_slashes(s.drop_last())
    } else {
        s
    }
}

/// The address of API path `path`: the API base address without its
/// trailing `/` characters, followed by the path.
pub fn api_request_url(api_url: &str, path: &str) -> (r: String)
    ensures
        r@ == without_trailing_slashes(api_url@) + path@,
{
    let mut end = api_url.unicode_len();
    proof {
        assert(api_url@.subrange(0, end as int) =~= api_url@);
    }
    while end > 0 && api_url.get_char(end - 1) == '/'
        invariant
            end <= api_url@.len(),
            without_trailing_slashes(api_url@.subrange(0, end as int)) == without_trailing_slashes(api_url@),
        decreases end,
    {
        proof {
            assert(api_url@.subrange(0, end as int).drop_last() =~= api_url@.subrange(0, end - 1));
        }
        end = end - 1;
    }
    proof {
        let t = api_url@.subrange(0, end as int);
        if end > 0 {
            assert(t.last() == api_url@[end - 1]);
        }
        if end as int == api_url@.len() {
            assert(t =~= api_url@);
        }
    }
    let base = api_url.substring_char(0, end);
    let mut s = owned(base);
    push_str(&mut s, path);
    s
}

} // verus!
