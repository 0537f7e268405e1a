//! Web access: what a fetch may ask for, what it reports, and how search
//! results are read off a page.
use crate::json::{json_string, quote};
use crate::strmap::StrMap;
use crate::text::{
    begins, dec, fmt_u64, lemma_shown_through, lemma_shows, lemma_shows_itself, opt_view, owned,
    shows, starts_with, trim, trimmed,
};
use crate::tools::registry::{fail, failed, missing, outcome, Failed, Output, ToolError, ToolOutput};
use crate::window::at_most;
use vstd::prelude::*;

verus! {

/// What a fetch asks for.
#[derive(Debug, Clone)]
pub struct FetchRequest {
    pub url: String,
    pub max_bytes: usize,
}

/// Whether a text is an address that can be fetched.
pub open spec fn fetchable(url: Seq<char>) -> bool {
    begins(url, "http://"@) || begins(url, "https://"@)
}

/// How many bytes of a body are kept: two hundred thousand unless asked
/// otherwise.
pub open spec fn byte_limit(max_bytes: Option<u64>) -> int {
    match max_bytes {
        Some(n) => if n > usize::MAX {
            usize::MAX as int
        } else {
            n as int
        },
        None => 200_000,
    }
}

/// The text that `String::from_utf8_lossy` reads from bytes.
pub uninterp spec fn utf8_lossy(bytes: Seq<u8>) -> Seq<char>;

/// Calls `String::from_utf8_lossy`. How it replaces what is not UTF-8 is
/// only named.
#[verifier::external_body]
fn from_utf8_lossy(bytes: &Vec<u8>) -> (r: String)
    ensures
        r@ == utf8_lossy(bytes@),
{
    String::from_utf8_lossy(bytes).into_owned()
}

/// What a service answered.
#[derive(Debug, Clone)]
pub struct Fetched {
    pub status: u16,
    pub url: String,
    pub content_type: String,
    pub body: Vec<u8>,
}

/// The JSON text of a truth value.
pub open spec fn bool_json(b: bool) -> Seq<char> {
    if b {
        "true"@
    } else {
        "false"@
    }
}

/// What a fetch reports: as much of the body as is kept, and what is known
/// of the answer.
pub open spec fn fetch_report(f: Fetched, max_bytes: usize) -> Output {
    Output {
        output_type: "text"@,
        content: utf8_lossy(at_most(f.body@, max_bytes as nat)),
        metadata: Map::<Seq<char>, Seq<char>>::empty().insert("status"@, dec(f.status as nat)).insert(
            "url"@,
            json_string(f.url@),
        ).insert("content_type"@, json_string(f.content_type@)).insert(
            "bytes"@,
            dec(f.body@.len()),
        ).insert("truncated"@, bool_json(f.body@.len() > max_bytes)),
    }
}

/// The error of a request that failed, given what failed and why.
pub fn network_error(what: &str, why: &str) -> (r: ToolError)
    ensures
        r@ == failed(what@ + " failed: "@ + why@, "network_error"@),
{
    let mut m: String = owned(what);
    m.append(" failed: ");
    m.append(why);
    fail(m, "network_error")
}

/// What a search asks for.
#[derive(Debug, Clone)]
pub struct SearchRequest {
    pub query: String,
    pub limit: usize,
}

/// How many hits a search gives: five unless asked otherwise, from one to
/// twenty.
pub open spec fn hit_limit(limit: Option<u64>) -> nat {
    match limit {
        Some(n) => if n < 1 {
            1
        } else if n > 20 {
            20
        } else {
            n as nat
        },
        None => 5,
    }
}

/// What the first two groups of a pattern capture at each of its matches in
/// a text, as `regex::Regex::captures_iter` finds them; none where the
/// pattern is not valid.
pub uninterp spec fn regex_pairs(pattern: Seq<char>, text: Seq<char>) -> Option<
    Seq<(Seq<char>, Seq<char>)>,
>;

/// The views of an optional list of pairs of strings.
pub open spec fn opt_pairs(o: Option<Vec<(String, String)>>) -> Option<
    Seq<(Seq<char>, Seq<char>)>,
> {
    match o {
        Some(v) => Some(v@.map_values(|p: (String, String)| (p.0@, p.1@))),
        None => None,
    }
}

/// Calls `regex::Regex::captures_iter`. A group that takes no part in a match
/// is empty.
#[verifier::external_body]
fn capture_pairs(pattern: &str, text: &str) -> (r: Option<Vec<(String, String)>>)
    ensures
        opt_pairs(r) == regex_pairs(pattern@, text@),
{
    let re = regex::Regex::new(pattern).ok()?;
    let group = |c: &regex::Captures, i: usize| c.get(i).map_or("", |m| m.as_str()).to_string();
    Some(re.captures_iter(text).map(|c| (group(&c, 1), group(&c, 2))).collect())
}

/// A text without the matches of a pattern, as `regex::Regex::replace_all`
/// leaves it; none where the pattern is not valid.
pub uninterp spec fn regex_removed(pattern: Seq<char>, text: Seq<char>) -> Option<Seq<char>>;

/// Calls `regex::Regex::replace_all` with an empty replacement.
#[verifier::external_body]
fn remove_matches(pattern: &str, text: &str) -> (r: Option<String>)
    ensures
        opt_view(r) == regex_removed(pattern@, text@),
{
    let re = regex::Regex::new(pattern).ok()?;
    Some(re.replace_all(text, "").into_owned())
}

/// The pattern of a link to a result: its address and its title.
pub const LINK_PATTERN: &'static str = "(?s)<a\\s+[^>]*class=\"result__a\"[^>]*href=\"([^\"]+)\"[^>]*>(.*?)</a>";

/// The pattern of a tag.
pub const TAG_PATTERN: &'static str = "<[^>]+>";

/// The title of a result: the text of its link without tags and without the
/// white space at its ends.
pub open spec fn plain_title(html: Seq<char>) -> Seq<char> {
    match regex_removed(TAG_PATTERN@, html) {
        Some(t) => trimmed(t),
        None => trimmed(html),
    }
}

/// The hits among some links, as titles with their addresses.
pub open spec fn hits_of(links: Seq<(Seq<char>, Seq<char>)>, limit: nat) -> Seq<
    (Seq<char>, Seq<char>),
> {
    at_most(links, limit).map_values(|l: (Seq<char>, Seq<char>)| (plain_title(l.1), l.0))
}

/// One hit as indented JSON.
pub open spec fn hit_json(h: (Seq<char>, Seq<char>)) -> Seq<char> {
    "    {\n      \"title\": "@ + json_string(h.0) + ",\n      \"url\": "@ + json_string(h.1)
        + "\n    }"@
}

/// Hits as indented JSON, with commas between them.
pub open spec fn hits_json(hs: Seq<(Seq<char>, Seq<char>)>) -> Seq<char>
    decreases hs.len(),
{
    if hs.len() == 0 {
        seq![]
    } else if hs.len() == 1 {
        hit_json(hs[0])
    } else {
        hits_json(hs.drop_last()) + ",\n"@ + hit_json(hs.last())
    }
}

/// The results of a search as indented JSON.
pub open spec fn results_json(hs: Seq<(Seq<char>, Seq<char>)>) -> Seq<char> {
    if hs.len() == 0 {
        "{\n  \"results\": []\n}"@
    } else {
        "{\n  \"results\": [\n"@ + hits_json(hs) + "\n  ]\n}"@
    }
}

/// What a search reports.
pub open spec fn search_report(query: Seq<char>, hs: Seq<(Seq<char>, Seq<char>)>) -> Output {
    Output {
        output_type: "json"@,
        content: results_json(hs),
        metadata: Map::<Seq<char>, Seq<char>>::empty().insert("query"@, json_string(query)).insert(
            "hits"@,
            dec(hs.len()),
        ),
    }
}

/// The views of a list of hits.
pub open spec fn hit_views(s: Seq<(String, String)>) -> Seq<(Seq<char>, Seq<char>)> {
    s.map_values(|p: (String, String)| (p.0@, p.1@))
}

fn title_of(html: &str) -> (r: String)
    ensures
        r@ == plain_title(html@),
{
    match remove_matches(TAG_PATTERN, html) {
        Some(t) => trim(t.as_str()),
        None => trim(html),
    }
}

/// The hits among the links of a page: titles with their addresses.
pub fn read_hits(links: &Vec<(String, String)>, limit: usize) -> (r: Vec<(String, String)>)
    ensures
        hit_views(r@) == hits_of(hit_views(links@), limit as nat),
{
    let ghost lv = hit_views(links@);
    let ghost f = |l: (Seq<char>, Seq<char>)| (plain_title(l.1), l.0);
    let mut out: Vec<(String, String)> = Vec::new();
    let mut i: usize = 0;
    proof {
        assert(hit_views(out@) =~= lv.take(0).map_values(f));
    }
    while i < links.len() && i < limit
        invariant
            i <= links@.len(),
            i <= limit,
            lv == hit_views(links@),
            f == (|l: (Seq<char>, Seq<char>)| (plain_title(l.1), l.0)),
            hit_views(out@) == lv.take(i as int).map_values(f),
        decreases links@.len() - i,
    {
        let t: String = title_of(links[i].1.as_str());
        let u: String = links[i].0.clone();
        let ghost before = out@;
        out.push((t, u));
        proof {
            assert(hit_views(out@) =~= hit_views(before).push((t@, u@)));
            assert(lv.take(i + 1) =~= lv.take(i as int).push(lv[i as int]));
            assert(lv.take(i + 1).map_values(f) =~= lv.take(i as int).map_values(f).push(
                f(lv[i as int]),
            ));
        }
        i = i + 1;
    }
    proof {
        assert(lv.take(i as int) =~= at_most(lv, limit as nat));
    }
    out
}

/// Reports hits.
pub fn search_output(query: &str, hits: &Vec<(String, String)>) -> (r: ToolOutput)
    ensures
        r@ == search_report(query@, hit_views(hits@)),
{
    let ghost hv = hit_views(hits@);
    let mut content: String = String::new();
    if hits.len() == 0 {
        content.append("{\n  \"results\": []\n}");
    } else {
        content.append("{\n  \"results\": [\n");
        let mut body: String = String::new();
        proof {
            assert(body@ =~= hits_json(hv.take(0)));
        }
        for i in 0..hits.len()
            invariant
                hv == hit_views(hits@),
                body@ == hits_json(hv.take(i as int)),
        {
            if i > 0 {
                body.append(",\n");
            }
            let ghost lead = body@;
            body.append("    {\n      \"title\": ");
            body.append(quote(hits[i].0.as_str()).as_str());
            body.append(",\n      \"url\": ");
            body.append(quote(hits[i].1.as_str()).as_str());
            body.append("\n    }");
            proof {
                assert(hv.take(i + 1).drop_last() =~= hv.take(i as int));
                assert(hv.take(i + 1).last() == hv[i as int]);
                assert(body@ =~= lead + hit_json(hv[i as int]));
                if i == 0 {
                    assert(body@ =~= hit_json(hv.take(1)[0]));
                }
            }
        }
        proof {
            assert(hv.take(hv.len() as int) =~= hv);
        }
        content.append(body.as_str());
        content.append("\n  ]\n}");
    }
    proof {
        assert(content@ =~= results_json(hv));
    }
    let mut metadata: StrMap = StrMap::new();
    metadata.insert("query", quote(query));
    metadata.insert("hits", fmt_u64(hits.len() as u64));
    ToolOutput { output_type: owned("json"), content, metadata }
}

/// What a search reports of a page.
pub open spec fn page_outcome(query: Seq<char>, limit: nat, html: Seq<char>) -> Result<
    Output,
    Failed,
> {
    match regex_pairs(LINK_PATTERN@, html) {
        Some(links) => Ok(search_report(query, hits_of(links, limit))),
        None => Err(failed("bad regex"@, "internal_error"@)),
    }
}

/// What the model is told of the tool.
pub const FETCH_DESCRIPTION: &'static str = "Fetch an HTTP(S) URL via GET and return the response body. Useful for reading web pages, JSON APIs, or downloading small files. Capped at `max_bytes` (default 200_000) to avoid flooding the agent's context.";

/// The JSON schema of the tool's input.
pub const FETCH_SCHEMA: &'static str = "{\"properties\":{\"headers\":{\"additionalProperties\":{\"type\":\"string\"},\"description\":\"Optional request headers as a flat string→string map.\",\"type\":\"object\"},\"max_bytes\":{\"default\":200000,\"description\":\"Truncate the body to this many bytes. Default 200000.\",\"type\":\"integer\"},\"url\":{\"description\":\"Absolute http(s) URL to fetch.\",\"type\":\"string\"}},\"required\":[\"url\"],\"type\":\"object\"}";

/// Fetches pages.
#[derive(Debug, Clone, Copy)]
pub struct HttpFetchTool {}

impl Default for HttpFetchTool {
    fn default() -> HttpFetchTool {
        HttpFetchTool {  }
    }
}

impl HttpFetchTool {
    pub fn new() -> HttpFetchTool {
        HttpFetchTool {  }
    }

    pub fn name(&self) -> (r: &'static str)
        ensures
            r@ == "http_fetch"@,
    {
        "http_fetch"
    }

    pub fn description(&self) -> (r: &'static str)
        ensures
            r@ == FETCH_DESCRIPTION@,
    {
        FETCH_DESCRIPTION
    }

    pub fn input_schema(&self) -> (r: &'static str)
        ensures
            r@ == FETCH_SCHEMA@,
    {
        FETCH_SCHEMA
    }

    /// Reads what a fetch asks for. An address is required.
    pub fn request(&self, url: &Option<String>, max_bytes: Option<u64>) -> (r: Result<
        FetchRequest,
        ToolError,
    >)
        ensures
            match *url {
                Some(u) => if fetchable(u@) {
                    r matches Ok(q) && q.url@ == u@ && q.max_bytes == byte_limit(max_bytes)
                } else {
                    r matches Err(e) && e@ == failed(
                        "url must start with http:// or https://"@,
                        "invalid_url"@,
                    )
                },
                None => r matches Err(e) && e@ == failed("url is required"@, "missing_parameter"@),
            },
    {
        match url {
            Some(u) => {
                if !(starts_with(u.as_str(), "http://") || starts_with(u.as_str(), "https://")) {
                    return Err(fail(owned("url must start with http:// or https://"), "invalid_url"));
                }
                let n: usize = match max_bytes {
                    Some(n) => if n > usize::MAX as u64 {
                        usize::MAX
                    } else {
                        n as usize
                    },
                    None => 200_000,
                };
                Ok(FetchRequest { url: u.clone(), max_bytes: n })
            },
            None => Err(missing("url is required")),
        }
    }

    /// Reports what a service answered.
    pub fn report(&self, f: &Fetched, max_bytes: usize) -> (r: ToolOutput)
        ensures
            r@ == fetch_report(*f, max_bytes),
    {
        let mut kept: Vec<u8> = f.body.clone();
        proof {
            assert(kept@ =~= f.body@);
        }
        kept.truncate(max_bytes);
        proof {
            assert(kept@ =~= at_most(f.body@, max_bytes as nat));
        }
        let mut metadata: StrMap = StrMap::new();
        metadata.insert("status", fmt_u64(f.status as u64));
        metadata.insert("url", quote(f.url.as_str()));
        metadata.insert("content_type", quote(f.content_type.as_str()));
        metadata.insert("bytes", fmt_u64(f.body.len() as u64));
        metadata.insert(
            "truncated",
            owned(
                if f.body.len() > max_bytes {
                    "true"
                } else {
                    "false"
                },
            ),
        );
        ToolOutput { output_type: owned("text"), content: from_utf8_lossy(&kept), metadata }
    }
}

/// What the model is told of the tool.
pub const SEARCH_DESCRIPTION: &'static str = "Search the web (DuckDuckGo HTML endpoint) and return the top N hits' titles and URLs. Low-fidelity baseline — swap in a proper provider for serious work.";

/// The JSON schema of the tool's input.
pub const SEARCH_SCHEMA: &'static str = "{\"properties\":{\"limit\":{\"default\":5,\"description\":\"Max hits to return (default 5, max 20).\",\"type\":\"integer\"},\"query\":{\"description\":\"Free-text search query.\",\"type\":\"string\"}},\"required\":[\"query\"],\"type\":\"object\"}";

/// Searches the web.
#[derive(Debug, Clone, Copy)]
pub struct WebSearchTool {}

impl Default for WebSearchTool {
    fn default() -> WebSearchTool {
        WebSearchTool {  }
    }
}

impl WebSearchTool {
    pub fn new() -> WebSearchTool {
        WebSearchTool {  }
    }

    pub fn name(&self) -> (r: &'static str)
        ensures
            r@ == "web_search"@,
    {
        "web_search"
    }

    pub fn description(&self) -> (r: &'static str)
        ensures
            r@ == SEARCH_DESCRIPTION@,
    {
        SEARCH_DESCRIPTION
    }

    pub fn input_schema(&self) -> (r: &'static str)
        ensures
            r@ == SEARCH_SCHEMA@,
    {
        SEARCH_SCHEMA
    }

    /// Reads what a search asks for. A query is required.
    pub fn request(&self, query: &Option<String>, limit: Option<u64>) -> (r: Result<
        SearchRequest,
        ToolError,
    >)
        ensures
            match *query {
                Some(s) => r matches Ok(q) && q.query@ == s@ && q.limit == hit_limit(limit),
                None => r matches Err(e) && e@ == failed("query is required"@, "missing_parameter"@),
            },
    {
        match query {
            Some(s) => {
                let n: usize = match limit {
                    Some(n) => if n < 1 {
                        1
                    } else if n > 20 {
                        20
                    } else {
                        n as usize
                    },
                    None => 5,
                };
                Ok(SearchRequest { query: s.clone(), limit: n })
            },
            None => Err(missing("query is required")),
        }
    }

    /// Reads the hits off a page of results and reports them.
    pub fn report(&self, q: &SearchRequest, html: &str) -> (r: Result<ToolOutput, ToolError>)
        ensures
            outcome(r) == page_outcome(q.query@, q.limit as nat, html@),
    {
        match capture_pairs(LINK_PATTERN, html) {
            Some(links) => {
                proof {
                    assert(hit_views(links@) == regex_pairs(LINK_PATTERN@, html@)->0);
                }
                let hits: Vec<(String, String)> = read_hits(&links, q.limit);
                Ok(search_output(q.query.as_str(), &hits))
            },
            None => Err(fail(owned("bad regex"), "internal_error")),
        }
    }
}

/// Addresses of the web can be fetched, over either protocol, and nothing
/// else.
pub proof fn law_fetchable_addresses(rest: Seq<char>, url: Seq<char>)
    ensures
        fetchable("http://"@ + rest),
        fetchable("https://"@ + rest),
        fetchable(url) ==> url.len() >= 7 && url[0] == 'h' && url[1] == 't' && url[2] == 't' && url[3]
            == 'p' && (url[4] == ':' || (url[4] == 's' && url[5] == ':')),
{
    reveal_strlit("http://");
    reveal_strlit("https://");
    assert(("http://"@ + rest).take(7) =~= "http://"@);
    assert(("https://"@ + rest).take(8) =~= "https://"@);
    if begins(url, "http://"@) {
        let t = url.take(7);
        assert(t[0] == 'h' && t[1] == 't' && t[2] == 't' && t[3] == 'p' && t[4] == ':');
    }
    if begins(url, "https://"@) {
        let t = url.take(8);
        assert(t[0] == 'h' && t[1] == 't' && t[2] == 't' && t[3] == 'p' && t[4] == 's' && t[5]
            == ':');
    }
}

/// A body within the limit is reported whole; of a longer one just the
/// beginning, and the report says so. Either way it tells how long the body
/// was and what the service answered.
pub proof fn law_body_is_kept_to_the_limit(f: Fetched, max_bytes: usize)
    ensures
        ({
            let r = fetch_report(f, max_bytes);
            &&& f.body@.len() <= max_bytes ==> r.content == utf8_lossy(f.body@)
                && r.metadata.contains_pair("truncated"@, "false"@)
            &&& f.body@.len() > max_bytes ==> r.content == utf8_lossy(
                f.body@.take(max_bytes as int),
            ) && r.metadata.contains_pair("truncated"@, "true"@)
            &&& r.metadata.contains_pair("bytes"@, dec(f.body@.len()))
            &&& r.metadata.contains_pair("status"@, dec(f.status as nat))
            &&& r.metadata.contains_pair("url"@, json_string(f.url@))
            &&& r.metadata.contains_pair("content_type"@, json_string(f.content_type@))
        }),
{
    reveal_strlit("truncated");
    reveal_strlit("bytes");
    reveal_strlit("status");
    reveal_strlit("url");
    reveal_strlit("content_type");
    assert("truncated"@.len() == 9 && "bytes"@.len() == 5 && "status"@.len() == 6 && "url"@.len()
        == 3 && "content_type"@.len() == 12);
}

/// A fetch keeps as many bytes as asked for, two hundred thousand where
/// nothing is asked; a search gives from one to twenty hits, five where
/// nothing is asked.
pub proof fn law_limits(n: u64, m: u64)
    requires
        n <= m,
    ensures
        byte_limit(None) == 200_000,
        n <= usize::MAX ==> byte_limit(Some(n)) == n,
        byte_limit(Some(n)) <= byte_limit(Some(m)),
        hit_limit(None) == 5,
        1 <= n <= 20 ==> hit_limit(Some(n)) == n,
        1 <= hit_limit(Some(n)) <= hit_limit(Some(m)) <= 20,
{
}

/// The hits are the first links of the page, in their order, each with its
/// own address and the title of its link.
pub proof fn law_hits_are_the_first_links(links: Seq<(Seq<char>, Seq<char>)>, limit: nat)
    ensures
        hits_of(links, limit).len() <= limit,
        hits_of(links, limit).len() <= links.len(),
        links.len() <= limit ==> hits_of(links, limit).len() == links.len(),
        links.len() >= limit ==> hits_of(links, limit).len() == limit,
        forall|i: int|
            0 <= i < hits_of(links, limit).len() ==> (#[trigger] hits_of(links, limit)[i]).1
                == links[i].0 && hits_of(links, limit)[i].0 == plain_title(links[i].1),
{
}

proof fn lemma_hit_shown(hs: Seq<(Seq<char>, Seq<char>)>, i: int)
    requires
        0 <= i < hs.len(),
    ensures
        shows(hits_json(hs), hit_json(hs[i])),
    decreases hs.len(),
{
    let h = hit_json(hs[i]);
    lemma_shows_itself(h);
    if hs.len() > 1 {
        let before = hits_json(hs.drop_last());
        if i == hs.len() - 1 {
            lemma_shows(before + ",\n"@, h, Seq::empty(), h);
            assert(before + ",\n"@ + h + Seq::empty() =~= hits_json(hs));
        } else {
            lemma_hit_shown(hs.drop_last(), i);
            lemma_shows(Seq::empty(), before, ",\n"@ + hit_json(hs.last()), h);
            assert(Seq::empty() + before + (",\n"@ + hit_json(hs.last())) =~= hits_json(hs));
        }
    }
}

/// The report of a search shows the title and the address of every hit and
/// tells how many there are.
pub proof fn law_report_shows_every_hit(query: Seq<char>, hs: Seq<(Seq<char>, Seq<char>)>, i: int)
    requires
        0 <= i < hs.len(),
    ensures
        shows(search_report(query, hs).content, "\"title\": "@ + json_string(hs[i].0) + ","@),
        shows(search_report(query, hs).content, "\"url\": "@ + json_string(hs[i].1)),
        search_report(query, hs).metadata.contains_pair("hits"@, dec(hs.len())),
        search_report(query, hs).metadata.contains_pair("query"@, json_string(query)),
{
    let all = search_report(query, hs).content;
    let head = "{\n  \"results\": [\n"@;
    let tail = "\n  ]\n}"@;
    let h = hit_json(hs[i]);
    lemma_hit_shown(hs, i);
    lemma_shows(head, hits_json(hs), tail, h);
    let t = "\"title\": "@ + json_string(hs[i].0) + ","@;
    let u = "\"url\": "@ + json_string(hs[i].1);
    reveal_strlit("    {\n      \"title\": ");
    reveal_strlit("\"title\": ");
    reveal_strlit(",\n      \"url\": ");
    reveal_strlit("\"url\": ");
    reveal_strlit(",");
    let lead = "    {\n      \"title\": "@;
    let mid = ",\n      \"url\": "@;
    assert(lead =~= lead.take(12) + "\"title\": "@);
    assert(mid =~= ","@ + mid.skip(1));
    assert(mid =~= mid.take(8) + "\"url\": "@);
    let rest = mid.skip(1) + json_string(hs[i].1) + "\n    }"@;
    assert(h =~= lead.take(12) + t + rest);
    lemma_shows_itself(t);
    lemma_shows(lead.take(12), t, rest, t);
    let first = lead + json_string(hs[i].0) + mid.take(8);
    assert(h =~= first + u + "\n    }"@);
    lemma_shows_itself(u);
    lemma_shows(first, u, "\n    }"@, u);
    lemma_shown_through(all, h, t);
    lemma_shown_through(all, h, u);
    reveal_strlit("hits");
    reveal_strlit("query");
    assert("hits"@.len() != "query"@.len());
}

} // verus!
