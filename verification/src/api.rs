//! Nexus Mods data: mod metadata, downloadable files, `nxm://` links and the
//! request paths and rate-limit bookkeeping of the REST client.

use std::collections::HashMap;

use vstd::prelude::*;
use vstd::string::*;

use crate::errors::AppError;
use crate::paths::{
    lemma_segment_state_append, lemma_slash_joined_segments, path_segments, plain_parts, segment_state, slash_joined,
    split_path,
};
use crate::text::{
    chars_equal, chars_of, format_int, int_text, law_int_text_round_trip, lemma_int_text_no_slash, parse_int,
    parse_int_text,
};

verus! {

/// Information about a single downloadable file attached to a Nexus mod.
#[derive(Debug, Clone)]
pub struct ModFile {
    pub id: i32,
    pub name: String,
    pub size: u64,
    pub version: String,
    pub category: String,
    pub mod_id: i32,
    pub file_path: String,
    pub file_name: String,
    pub file_version: String,
    pub file_category: String,
    pub file_url: String,
}

/// Static mod metadata; `required_mod_ids` lists the Nexus ids the mod needs,
/// `required_versions` the minimum version wanted for some of them.
#[derive(Debug, Clone)]
pub struct Mod {
    /// Internal database key (0 if not yet inserted).
    pub id: i32,
    pub name: String,
    pub version: String,
    pub description: String,
    pub category: String,
    pub nexus_id: String,
    pub required_mod_ids: Vec<String>,
    pub required_versions: HashMap<String, String>,
}

impl Default for Mod {
    fn default() -> (m: Self)
        ensures
            m.id == 0,
            m.name@.len() == 0,
            m.version@.len() == 0,
            m.description@.len() == 0,
            m.category@.len() == 0,
            m.nexus_id@.len() == 0,
            m.required_mod_ids@.len() == 0,
            m.required_versions@.len() == 0,
    {
        Mod {
            id: 0,
            name: String::new(),
            version: String::new(),
            description: String::new(),
            category: String::new(),
            nexus_id: String::new(),
            required_mod_ids: Vec::new(),
            required_versions: HashMap::new(),
        }
    }
}

/// Parsed parts of an `nxm://` link.
#[derive(Debug, Clone)]
pub struct NxmLink {
    pub game_domain: String,
    pub mod_id: i32,
    pub file_id: i32,
    pub key: Option<String>,
    pub expires: Option<i64>,
}

/// Nexus REST API rate-limit state, as last reported by the server.
#[derive(Debug, Clone, Copy)]
pub struct RateLimit {
    pub hourly_remaining: Option<u32>,
    pub daily_remaining: Option<u32>,
    pub hourly_limit: Option<u32>,
    pub daily_limit: Option<u32>,
}

impl Default for RateLimit {
    fn default() -> (r: Self)
        ensures
            r.hourly_remaining is None,
            r.daily_remaining is None,
            r.hourly_limit is None,
            r.daily_limit is None,
    {
        RateLimit { hourly_remaining: None, daily_remaining: None, hourly_limit: None, daily_limit: None }
    }
}

/// One hit of the mod search endpoint.
#[derive(Debug, Clone)]
pub struct ModSearchResult {
    pub mod_id: i32,
    pub name: String,
    pub version: Option<String>,
    pub summary: Option<String>,
    pub category_id: Option<i32>,
}

/// The mod details endpoint's answer.
#[derive(Debug, Clone)]
pub struct ModDetails {
    pub id: i32,
    pub name: String,
    pub version: Option<String>,
    pub description: Option<String>,
    pub category_id: Option<i32>,
    pub mod_requirements: Vec<String>,
}

/// Text of an optional string, empty when absent.
pub open spec fn text_or_empty(s: Option<String>) -> Seq<char> {
    match s {
        Some(t) => t@,
        None => Seq::empty(),
    }
}

/// Decimal text of an optional category id, empty when absent.
pub open spec fn category_text(c: Option<i32>) -> Seq<char> {
    match c {
        Some(v) => int_text(v as int),
        None => Seq::empty(),
    }
}

fn string_or_empty(s: Option<String>) -> (r: String)
    ensures
        r@ == text_or_empty(s),
{
    match s {
        Some(t) => t,
        None => String::new(),
    }
}

fn category_string(c: Option<i32>) -> (r: String)
    ensures
        r@ == category_text(c),
{
    match c {
        Some(v) => format_int(v as i64),
        None => String::new(),
    }
}

impl Mod {
    /// The metadata a search hit carries: no requirements, database key 0.
    pub fn from_search_result(r: ModSearchResult) -> (m: Mod)
        ensures
            m.id == 0,
            m.name == r.name,
            m.version@ == text_or_empty(r.version),
            m.description@ == text_or_empty(r.summary),
            m.category@ == category_text(r.category_id),
            m.nexus_id@ == int_text(r.mod_id as int),
            m.required_mod_ids@.len() == 0,
            m.required_versions@.len() == 0,
    {
        Mod {
            id: 0,
            name: r.name,
            version: string_or_empty(r.version),
            description: string_or_empty(r.summary),
            category: category_string(r.category_id),
            nexus_id: format_int(r.mod_id as i64),
            required_mod_ids: Vec::new(),
            required_versions: HashMap::new(),
        }
    }

    /// The metadata the details endpoint carries, requirements included.
    pub fn from_details(d: ModDetails) -> (m: Mod)
        ensures
            m.id == 0,
            m.name == d.name,
            m.version@ == text_or_empty(d.version),
            m.description@ == text_or_empty(d.description),
            m.category@ == category_text(d.category_id),
            m.nexus_id@ == int_text(d.id as int),
            m.required_mod_ids == d.mod_requirements,
            m.required_versions@.len() == 0,
    {
        Mod {
            id: 0,
            name: d.name,
            version: string_or_empty(d.version),
            description: string_or_empty(d.description),
            category: category_string(d.category_id),
            nexus_id: format_int(d.id as i64),
            required_mod_ids: d.mod_requirements,
            required_versions: HashMap::new(),
        }
    }
}

// ---------------------------------------------------------------------------
// URLs and nxm:// links
// ---------------------------------------------------------------------------

/// The parts of a parsed URL that link handling reads: scheme, host, path and
/// the decoded query pairs in order.
pub struct UrlParts {
    pub scheme: String,
    pub host: Option<String>,
    pub path: String,
    pub query: Vec<(String, String)>,
}

pub type UrlModel = (Seq<char>, Option<Seq<char>>, Seq<char>, Seq<(Seq<char>, Seq<char>)>);

pub open spec fn option_text(o: Option<String>) -> Option<Seq<char>> {
    match o {
        Some(s) => Some(s@),
        None => None,
    }
}

impl View for UrlParts {
    type V = UrlModel;

    open spec fn view(&self) -> UrlModel {
        (
            self.scheme@,
            option_text(self.host),
            self.path@,
            self.query@.map_values(|p: (String, String)| (p.0@, p.1@)),
        )
    }
}

/// What `url::Url::parse` makes of a string: its scheme, host, path and query
/// pairs, or the text of the parse error.
pub uninterp spec fn parsed_url(input: Seq<char>) -> Result<UrlModel, Seq<char>>;

/// Parses `input` with `url::Url::parse` and reads back `scheme()`,
/// `host_str()`, `path()` and `query_pairs()`; on failure, the error's text.
/// The contract only names the outcome: the URL grammar is the url crate's.
#[verifier::external_body]
fn parse_url(input: &str) -> (r: Result<UrlParts, String>)
    ensures
        match r {
            Ok(p) => parsed_url(input@) == Ok::<UrlModel, Seq<char>>(p@),
            Err(e) => parsed_url(input@) == Err::<UrlModel, Seq<char>>(e@),
        },
{
    match url::Url::parse(input) {
        Ok(u) => Ok(UrlParts {
            scheme: u.scheme().to_string(),
            host: u.host_str().map(|h| h.to_string()),
            path: u.path().to_string(),
            query: u.query_pairs().map(|(k, v)| (k.into_owned(), v.into_owned())).collect(),
        }),
        Err(e) => Err(e.to_string()),
    }
}

/// The value of the last query pair named `name`.
pub open spec fn last_value(q: Seq<(Seq<char>, Seq<char>)>, name: Seq<char>) -> Option<Seq<char>>
    decreases q.len(),
{
    if q.len() == 0 {
        None
    } else if q.last().0 == name {
        Some(q.last().1)
    } else {
        last_value(q.drop_last(), name)
    }
}

/// The `expires` value: the last `expires` pair, read as an `i64` if it is one.
pub open spec fn expires_value(q: Seq<(Seq<char>, Seq<char>)>) -> Option<int>
    decreases q.len(),
{
    if q.len() == 0 {
        None
    } else if q.last().0 == "expires"@ {
        parse_int_text(q.last().1, true, i64::MIN as int, i64::MAX as int)
    } else {
        expires_value(q.drop_last())
    }
}

pub type NxmModel = (Seq<char>, int, int, Option<Seq<char>>, Option<int>);

/// The link that an `nxm://` URI with parsed parts `u` denotes, or the text of
/// the API error that rejects it.
pub open spec fn nxm_from_parts(uri: Seq<char>, u: UrlModel) -> Result<NxmModel, Seq<char>> {
    let segs = path_segments(u.2);
    if u.0 != "nxm"@ {
        Err("not an nxm:// URI: "@ + uri)
    } else if segs.len() != 4 || segs[0] != "mods"@ || segs[2] != "files"@ {
        Err("malformed nxm:// path: "@ + uri)
    } else {
        match parse_int_text(segs[1], true, i32::MIN as int, i32::MAX as int) {
            None => Err("bad mod_id in nxm:// link: "@ + segs[1]),
            Some(mod_id) => match parse_int_text(segs[3], true, i32::MIN as int, i32::MAX as int) {
                None => Err("bad file_id in nxm:// link: "@ + segs[3]),
                Some(file_id) => Ok(
                    (
                        match u.1 {
                            Some(h) => h,
                            None => Seq::empty(),
                        },
                        mod_id,
                        file_id,
                        last_value(u.3, "key"@),
                        expires_value(u.3),
                    ),
                ),
            },
        }
    }
}

/// The parts of the URL `nxm://<host>/mods/<mod_id>/files/<file_id>?key=<key>&expires=<expires>`.
pub open spec fn nxm_url_parts(host: Seq<char>, mod_id: int, file_id: int, key: Seq<char>, expires: int) -> UrlModel {
    (
        "nxm"@,
        Some(host),
        "/mods/"@ + int_text(mod_id) + "/files/"@ + int_text(file_id),
        seq![("key"@, key), ("expires"@, int_text(expires))],
    )
}

/// A link written out in full reads back as itself: the parts of
/// `nxm://<host>/mods/<mod_id>/files/<file_id>?key=<key>&expires=<expires>`
/// give that host, those ids, that key and that expiry.
pub proof fn law_nxm_round_trip(uri: Seq<char>, host: Seq<char>, mod_id: i32, file_id: i32, key: Seq<char>, expires: i64)
    ensures
        nxm_from_parts(uri, nxm_url_parts(host, mod_id as int, file_id as int, key, expires as int)) == Ok::<
            NxmModel,
            Seq<char>,
        >((host, mod_id as int, file_id as int, Some(key), Some(expires as int))),
{
    reveal_strlit("nxm");
    reveal_strlit("/mods/");
    reveal_strlit("/files/");
    reveal_strlit("key");
    reveal_strlit("expires");
    reveal_strlit("mods");
    reveal_strlit("files");
    let a = int_text(mod_id as int);
    let b = int_text(file_id as int);
    lemma_int_text_no_slash(mod_id as int);
    lemma_int_text_no_slash(file_id as int);
    let mods: Seq<char> = seq!['m', 'o', 'd', 's'];
    let files: Seq<char> = seq!['f', 'i', 'l', 'e', 's'];
    assert("mods"@ =~= mods);
    assert("files"@ =~= files);
    assert(!mods.contains('/'));
    assert(!files.contains('/'));
    let slash: Seq<char> = seq!['/'];
    let p1 = slash;
    assert(segment_state(p1) == (Seq::<Seq<char>>::empty(), Seq::<char>::empty())) by {
        assert(p1.drop_last() =~= Seq::<char>::empty());
        assert(segment_state(Seq::<char>::empty()) == (Seq::<Seq<char>>::empty(), Seq::<char>::empty()));
        assert(p1.last() == '/');
    }
    lemma_segment_state_append(p1, mods);
    let p2 = p1 + mods;
    let p3 = p2.push('/');
    assert(p3.drop_last() =~= p2);
    assert(segment_state(p3) == (seq![mods], Seq::<char>::empty())) by {
        assert(Seq::<char>::empty() + mods =~= mods);
        assert(Seq::<Seq<char>>::empty().push(mods) =~= seq![mods]);
    }
    lemma_segment_state_append(p3, a);
    let p4 = p3 + a;
    let p5 = p4.push('/');
    assert(p5.drop_last() =~= p4);
    assert(segment_state(p5) == (seq![mods, a], Seq::<char>::empty())) by {
        assert(Seq::<char>::empty() + a =~= a);
        assert(seq![mods].push(a) =~= seq![mods, a]);
    }
    lemma_segment_state_append(p5, files);
    let p6 = p5 + files;
    let p7 = p6.push('/');
    assert(p7.drop_last() =~= p6);
    assert(segment_state(p7) == (seq![mods, a, files], Seq::<char>::empty())) by {
        assert(Seq::<char>::empty() + files =~= files);
        assert(seq![mods, a].push(files) =~= seq![mods, a, files]);
    }
    lemma_segment_state_append(p7, b);
    let p8 = p7 + b;
    assert(p8 =~= "/mods/"@ + a + "/files/"@ + b);
    assert(Seq::<char>::empty() + b =~= b);
    assert(path_segments(p8) =~= seq![mods, a, files, b]);
    law_int_text_round_trip(mod_id as int, true, i32::MIN as int, i32::MAX as int);
    law_int_text_round_trip(file_id as int, true, i32::MIN as int, i32::MAX as int);
    law_int_text_round_trip(expires as int, true, i64::MIN as int, i64::MAX as int);
    let q = seq![("key"@, key), ("expires"@, int_text(expires as int))];
    assert("expires"@ != "key"@) by {
        assert("expires"@.len() != "key"@.len());
    }
    assert(q.drop_last() =~= seq![("key"@, key)]);
    assert(seq![("key"@, key)].drop_last() =~= Seq::<(Seq<char>, Seq<char>)>::empty());
    assert(last_value(seq![("key"@, key)], "key"@) == Some(key));
    assert(q.last().0 != "key"@);
    assert(last_value(q, "key"@) == Some(key));
    assert(expires_value(q) == Some(expires as int));
}

impl NxmLink {
    pub open spec fn model(self) -> NxmModel {
        (
            self.game_domain@,
            self.mod_id as int,
            self.file_id as int,
            option_text(self.key),
            match self.expires {
                Some(e) => Some(e as int),
                None => None,
            },
        )
    }
}

/// The message of an API error.
pub open spec fn api_message(e: AppError) -> Option<Seq<char>> {
    match e {
        AppError::Api(m) => Some(m@),
        _ => None,
    }
}

fn api_error(prefix: &str, detail: &str) -> (e: AppError)
    ensures
        api_message(e) == Some(prefix@ + detail@),
{
    let mut m = String::from_str(prefix);
    m.append(detail);
    AppError::Api(m)
}

/// Builds the link an `nxm://` URI denotes from its parsed parts `url`:
/// `nxm://<game_domain>/mods/<mod_id>/files/<file_id>?key=...&expires=...`.
/// Rejects other schemes and other paths, and ids that are not `i32`s.
pub fn nxm_link_from_parts(uri: &str, url: &UrlParts) -> (r: Result<NxmLink, AppError>)
    ensures
        match r {
            Ok(link) => nxm_from_parts(uri@, url@) == Ok::<NxmModel, Seq<char>>(link.model()),
            Err(e) => api_message(e) matches Some(m) && nxm_from_parts(uri@, url@) == Err::<NxmModel, Seq<char>>(m),
        },
{
    let scheme = chars_of(url.scheme.as_str());
    if !chars_equal(&scheme, "nxm") {
        return Err(api_error("not an nxm:// URI: ", uri));
    }
    let segs = split_path(url.path.as_str());
    proof {
        assert(segs@.len() == path_segments(url.path@).len());
    }
    if segs.len() != 4 {
        return Err(api_error("malformed nxm:// path: ", uri));
    }
    proof {
        assert(segs@[0]@ == path_segments(url.path@)[0]);
        assert(segs@[1]@ == path_segments(url.path@)[1]);
        assert(segs@[2]@ == path_segments(url.path@)[2]);
        assert(segs@[3]@ == path_segments(url.path@)[3]);
    }
    let s0 = chars_of(segs[0].as_str());
    let s2 = chars_of(segs[2].as_str());
    if !chars_equal(&s0, "mods") || !chars_equal(&s2, "files") {
        return Err(api_error("malformed nxm:// path: ", uri));
    }
    let game_domain = match &url.host {
        Some(h) => h.clone(),
        None => String::new(),
    };
    let mod_id = match parse_int(segs[1].as_str(), true, i32::MIN as i128, i32::MAX as i128) {
        Some(v) => v as i32,
        None => {
            return Err(api_error("bad mod_id in nxm:// link: ", segs[1].as_str()));
        },
    };
    let file_id = match parse_int(segs[3].as_str(), true, i32::MIN as i128, i32::MAX as i128) {
        Some(v) => v as i32,
        None => {
            return Err(api_error("bad file_id in nxm:// link: ", segs[3].as_str()));
        },
    };
    let mut key: Option<String> = None;
    let mut expires: Option<i64> = None;
    let ghost q = url@.3;
    let n = url.query.len();
    for i in 0..n
        invariant
            n == url.query.len(),
            q == url@.3,
            option_text(key) == last_value(q.take(i as int), "key"@),
            (match expires {
                Some(e) => Some(e as int),
                None => None,
            }) == expires_value(q.take(i as int)),
    {
        let name = chars_of(url.query[i].0.as_str());
        proof {
            assert(q.take(i + 1).drop_last() =~= q.take(i as int));
            assert(q.take(i + 1).last() == (url.query@[i as int].0@, url.query@[i as int].1@));
            reveal_strlit("key");
            reveal_strlit("expires");
            assert("key"@.len() != "expires"@.len());
        }
        if chars_equal(&name, "key") {
            key = Some(url.query[i].1.clone());
        } else if chars_equal(&name, "expires") {
            expires = match parse_int(url.query[i].1.as_str(), true, i64::MIN as i128, i64::MAX as i128) {
                Some(v) => Some(v as i64),
                None => None,
            };
        }
    }
    proof {
        assert(q.take(n as int) =~= q);
    }
    Ok(NxmLink { game_domain, mod_id, file_id, key, expires })
}

impl NexusClient {
    /// Parses an `nxm://game_domain/mods/mod_id/files/file_id?key=...&expires=...` link.
    pub fn parse_nxm(uri: &str) -> (r: Result<NxmLink, AppError>)
        ensures
            match parsed_url(uri@) {
                Err(t) => api_message(r->Err_0) == Some("URL parse error: "@ + t),
                Ok(u) => match r {
                    Ok(link) => nxm_from_parts(uri@, u) == Ok::<NxmModel, Seq<char>>(link.model()),
                    Err(e) => api_message(e) matches Some(m) && nxm_from_parts(uri@, u) == Err::<NxmModel, Seq<char>>(m),
                },
            },
            parsed_url(uri@) is Err ==> r is Err,
    {
        match parse_url(uri) {
            Err(t) => Err(api_error("URL parse error: ", t.as_str())),
            Ok(parts) => nxm_link_from_parts(uri, &parts),
        }
    }
}

/// The Nexus REST client's configuration: the key it authenticates with, the
/// API base URL and the game whose mods it browses.
#[derive(Debug, Clone)]
pub struct NexusClient {
    pub api_key: String,
    pub base_url: String,
    pub game_id: i32,
}

// ---------------------------------------------------------------------------
// Query encoding and request paths
// ---------------------------------------------------------------------------

/// Bytes left as they are by query encoding: `A-Z a-z 0-9 - _ . ~`.
pub open spec fn is_unreserved(b: u8) -> bool {
    (0x41 <= b <= 0x5a) || (0x61 <= b <= 0x7a) || (0x30 <= b <= 0x39) || b == 0x2d || b == 0x5f || b
        == 0x2e || b == 0x7e
}

/// Upper-case hexadecimal digit.
pub open spec fn hex_upper(d: nat) -> char {
    if d < 10 {
        (d + 0x30) as char
    } else {
        (d - 10 + 0x41) as char
    }
}

pub open spec fn encode_byte(b: u8) -> Seq<char> {
    if is_unreserved(b) {
        seq![b as char]
    } else {
        seq!['%', hex_upper(b as nat / 16), hex_upper(b as nat % 16)]
    }
}

/// Percent-encoding of a byte string: unreserved bytes stay, every other byte
/// becomes `%XX` in upper-case hex.
pub open spec fn url_encoded(bytes: Seq<u8>) -> Seq<char>
    decreases bytes.len(),
{
    if bytes.len() == 0 {
        Seq::empty()
    } else {
        url_encoded(bytes.drop_last()) + encode_byte(bytes.last())
    }
}

fn hex_digit(d: u8) -> (c: char)
    requires
        d < 16,
    ensures
        c == hex_upper(d as nat),
{
    if d < 10 {
        (d + 0x30) as char
    } else {
        ((d - 10 + 0x41) as u8) as char
    }
}

/// Percent-encodes the UTF-8 bytes of `s` for a query string.
pub fn urlencoding(s: &str) -> (r: String)
    ensures
        r@ == url_encoded(s.spec_bytes()),
{
    let bytes = s.as_bytes();
    let mut out = String::new();
    let n = bytes.len();
    for i in 0..n
        invariant
            n == bytes@.len(),
            bytes@ == s.spec_bytes(),
            out@ == url_encoded(bytes@.take(i as int)),
    {
        let b = bytes[i];
        proof {
            assert(bytes@.take(i + 1).drop_last() =~= bytes@.take(i as int));
        }
        if (0x41 <= b && b <= 0x5a) || (0x61 <= b && b <= 0x7a) || (0x30 <= b && b <= 0x39) || b == 0x2d
            || b == 0x5f || b == 0x2e || b == 0x7e {
            crate::text::push_char(&mut out, b as char);
            proof {
                assert(out@ =~= url_encoded(bytes@.take(i as int)) + encode_byte(b));
            }
        } else {
            crate::text::push_char(&mut out, '%');
            crate::text::push_char(&mut out, hex_digit(b / 16));
            crate::text::push_char(&mut out, hex_digit(b % 16));
            proof {
                assert(out@ =~= url_encoded(bytes@.take(i as int)) + encode_byte(b));
            }
        }
    }
    proof {
        assert(bytes@.take(n as int) =~= bytes@);
    }
    out
}

/// Text of the search endpoint's path for a game and a query.
pub open spec fn search_path_text(game_id: i32, query: Seq<u8>) -> Seq<char> {
    "/games/"@ + int_text(game_id as int) + "/mods/search.json?term="@ + url_encoded(query)
}

pub open spec fn details_path_text(game_id: i32, mod_id: i32) -> Seq<char> {
    "/games/"@ + int_text(game_id as int) + "/mods/"@ + int_text(mod_id as int) + ".json"@
}

pub open spec fn files_path_text(game_id: i32, mod_id: i32) -> Seq<char> {
    "/games/"@ + int_text(game_id as int) + "/mods/"@ + int_text(mod_id as int) + "/files.json"@
}

/// The download-link endpoint; the key and expiry of an `nxm://` link are passed
/// on when the link carries both.
pub open spec fn download_path_text(game_id: i32, mod_id: i32, file_id: i32, nxm: Option<NxmModel>) -> Seq<char> {
    let base = "/games/"@ + int_text(game_id as int) + "/mods/"@ + int_text(mod_id as int) + "/files/"@
        + int_text(file_id as int) + "/download.json"@;
    match nxm {
        Some(l) => match (l.3, l.4) {
            (Some(k), Some(e)) => base + "?key="@ + k + "&expires="@ + int_text(e),
            _ => base,
        },
        None => base,
    }
}

fn append_int(s: &mut String, n: i64)
    ensures
        final(s)@ == old(s)@ + int_text(n as int),
{
    let t = format_int(n);
    s.append(t.as_str());
}

impl NexusClient {
    /// A client for Cyberpunk 2077 (game 3333) on `api.nexusmods.com/v1`.
    pub fn new(api_key: String) -> (c: NexusClient)
        ensures
            c.api_key == api_key,
            c.base_url@ == "https://api.nexusmods.com/v1"@,
            c.game_id == 3333,
    {
        NexusClient { api_key, base_url: String::from_str("https://api.nexusmods.com/v1"), game_id: 3333 }
    }

    /// The same client for another game.
    pub fn with_game_id(self, game_id: i32) -> (c: NexusClient)
        ensures
            c.api_key == self.api_key,
            c.base_url == self.base_url,
            c.game_id == game_id,
    {
        NexusClient { game_id, ..self }
    }

    /// Full URL of an endpoint path.
    pub fn url_for(&self, path: &str) -> (r: String)
        ensures
            r@ == self.base_url@ + path@,
    {
        let mut r = self.base_url.clone();
        r.append(path);
        r
    }

    pub fn search_path(&self, query: &str) -> (r: String)
        ensures
            r@ == search_path_text(self.game_id, query.spec_bytes()),
    {
        let mut p = String::from_str("/games/");
        append_int(&mut p, self.game_id as i64);
        p.append("/mods/search.json?term=");
        let q = urlencoding(query);
        p.append(q.as_str());
        p
    }

    pub fn details_path(&self, mod_id: i32) -> (r: String)
        ensures
            r@ == details_path_text(self.game_id, mod_id),
    {
        let mut p = String::from_str("/games/");
        append_int(&mut p, self.game_id as i64);
        p.append("/mods/");
        append_int(&mut p, mod_id as i64);
        p.append(".json");
        p
    }

    pub fn files_path(&self, mod_id: i32) -> (r: String)
        ensures
            r@ == files_path_text(self.game_id, mod_id),
    {
        let mut p = String::from_str("/games/");
        append_int(&mut p, self.game_id as i64);
        p.append("/mods/");
        append_int(&mut p, mod_id as i64);
        p.append("/files.json");
        p
    }

    pub fn download_path(&self, mod_id: i32, file_id: i32, nxm: Option<&NxmLink>) -> (r: String)
        ensures
            r@ == download_path_text(
                self.game_id,
                mod_id,
                file_id,
                match nxm {
                    Some(l) => Some(l.model()),
                    None => None,
                },
            ),
    {
        let mut p = String::from_str("/games/");
        append_int(&mut p, self.game_id as i64);
        p.append("/mods/");
        append_int(&mut p, mod_id as i64);
        p.append("/files/");
        append_int(&mut p, file_id as i64);
        p.append("/download.json");
        if let Some(n) = nxm {
            if let (Some(k), Some(e)) = (&n.key, n.expires) {
                p.append("?key=");
                p.append(k.as_str());
                p.append("&expires=");
                append_int(&mut p, e);
            }
        }
        p
    }
}

// ---------------------------------------------------------------------------
// Rate limits and retries
// ---------------------------------------------------------------------------

/// A header value read as a `u32`, if it is one.
pub open spec fn header_u32(h: Option<Seq<char>>) -> Option<int> {
    match h {
        Some(t) => parse_int_text(t, false, 0, u32::MAX as int),
        None => None,
    }
}

/// A field after a header update: the header's number when it has one,
/// otherwise the old value.
pub open spec fn updated(old: Option<u32>, h: Option<Seq<char>>) -> Option<u32> {
    match header_u32(h) {
        Some(v) => Some(v as u32),
        None => old,
    }
}

pub open spec fn str_option(h: Option<&str>) -> Option<Seq<char>> {
    match h {
        Some(t) => Some(t@),
        None => None,
    }
}

fn parse_u32_header(h: Option<&str>) -> (r: Option<u32>)
    ensures
        match header_u32(str_option(h)) {
            Some(v) => r == Some(v as u32),
            None => r is None,
        },
{
    match h {
        Some(t) => match parse_int(t, false, 0, u32::MAX as i128) {
            Some(v) => Some(v as u32),
            None => None,
        },
        None => None,
    }
}

impl RateLimit {
    /// Takes in the values of the `x-rl-hourly-remaining`, `x-rl-daily-remaining`,
    /// `x-rl-hourly-limit` and `x-rl-daily-limit` headers of a response; each
    /// field changes only when its header holds a number.
    pub fn apply_headers(
        &mut self,
        hourly_remaining: Option<&str>,
        daily_remaining: Option<&str>,
        hourly_limit: Option<&str>,
        daily_limit: Option<&str>,
    )
        ensures
            final(self).hourly_remaining == updated(old(self).hourly_remaining, str_option(hourly_remaining)),
            final(self).daily_remaining == updated(old(self).daily_remaining, str_option(daily_remaining)),
            final(self).hourly_limit == updated(old(self).hourly_limit, str_option(hourly_limit)),
            final(self).daily_limit == updated(old(self).daily_limit, str_option(daily_limit)),
    {
        if let Some(v) = parse_u32_header(hourly_remaining) {
            self.hourly_remaining = Some(v);
        }
        if let Some(v) = parse_u32_header(daily_remaining) {
            self.daily_remaining = Some(v);
        }
        if let Some(v) = parse_u32_header(hourly_limit) {
            self.hourly_limit = Some(v);
        }
        if let Some(v) = parse_u32_header(daily_limit) {
            self.daily_limit = Some(v);
        }
    }
}

/// How one request attempt ended.
#[derive(Debug, Clone, Copy)]
pub enum RequestOutcome {
    /// The server answered 429 Too Many Requests.
    TooManyRequests,
    /// The server answered with any other status.
    Answered,
    /// The request did not get an answer.
    TransportError,
}

/// What the client does after an attempt.
#[derive(Debug, Clone, Copy)]
pub enum RequestStep {
    /// Hand the response to the caller.
    ReturnResponse,
    /// Send the request again.
    Retry,
    /// Report the transport error.
    ReturnError,
}

/// After an attempt: answers other than 429 are returned; a 429 or a transport
/// error is retried while the attempt index is below the number of retries
/// allowed, and otherwise returned as it is. (After a 429 the client always
/// waits first.)
pub fn request_step(attempt_index: usize, retries_allowed: usize, outcome: RequestOutcome) -> (r: RequestStep)
    ensures
        r == (match outcome {
            RequestOutcome::Answered => RequestStep::ReturnResponse,
            RequestOutcome::TooManyRequests => if attempt_index < retries_allowed {
                RequestStep::Retry
            } else {
                RequestStep::ReturnResponse
            },
            RequestOutcome::TransportError => if attempt_index < retries_allowed {
                RequestStep::Retry
            } else {
                RequestStep::ReturnError
            },
        }),
{
    match outcome {
        RequestOutcome::Answered => RequestStep::ReturnResponse,
        RequestOutcome::TooManyRequests => if attempt_index < retries_allowed {
            RequestStep::Retry
        } else {
            RequestStep::ReturnResponse
        },
        RequestOutcome::TransportError => if attempt_index < retries_allowed {
            RequestStep::Retry
        } else {
            RequestStep::ReturnError
        },
    }
}

/// The `retry-after` header read as seconds (`u64`), or 2 when absent or not a number.
pub fn retry_after_secs(header: Option<&str>) -> (r: u64)
    ensures
        r as int == match str_option(header) {
            Some(t) => match parse_int_text(t, false, 0, u64::MAX as int) {
                Some(v) => v,
                None => 2,
            },
            None => 2,
        },
{
    match header {
        Some(t) => match parse_int(t, false, 0, u64::MAX as i128) {
            Some(v) => v as u64,
            None => 2,
        },
        None => 2,
    }
}

// ---------------------------------------------------------------------------
// What the endpoint paths name
// ---------------------------------------------------------------------------

proof fn lemma_plain_literals()
    ensures
        "games"@ =~= seq!['g', 'a', 'm', 'e', 's'],
        "mods"@ =~= seq!['m', 'o', 'd', 's'],
        "files"@ =~= seq!['f', 'i', 'l', 'e', 's'],
        "files.json"@ =~= seq!['f', 'i', 'l', 'e', 's', '.', 'j', 's', 'o', 'n'],
        "download.json"@ =~= seq!['d', 'o', 'w', 'n', 'l', 'o', 'a', 'd', '.', 'j', 's', 'o', 'n'],
        ".json"@ =~= seq!['.', 'j', 's', 'o', 'n'],
        "/games/"@ =~= seq!['/', 'g', 'a', 'm', 'e', 's', '/'],
        "/mods/"@ =~= seq!['/', 'm', 'o', 'd', 's', '/'],
        "/files/"@ =~= seq!['/', 'f', 'i', 'l', 'e', 's', '/'],
        "/files.json"@ =~= seq!['/', 'f', 'i', 'l', 'e', 's', '.', 'j', 's', 'o', 'n'],
        "/download.json"@ =~= seq!['/', 'd', 'o', 'w', 'n', 'l', 'o', 'a', 'd', '.', 'j', 's', 'o', 'n'],
        !"games"@.contains('/'),
        !"mods"@.contains('/'),
        !"files"@.contains('/'),
        !"files.json"@.contains('/'),
        !"download.json"@.contains('/'),
        !".json"@.contains('/'),
{
    reveal_strlit("games");
    reveal_strlit("mods");
    reveal_strlit("files");
    reveal_strlit("files.json");
    reveal_strlit("download.json");
    reveal_strlit(".json");
    reveal_strlit("/games/");
    reveal_strlit("/mods/");
    reveal_strlit("/files/");
    reveal_strlit("/files.json");
    reveal_strlit("/download.json");
}

/// The files endpoint lists the files of the asked mod of the client's game:
/// its path is `/games/<game_id>/mods/<mod_id>/files.json`, and its second and
/// fourth segments read back as the game id and the mod id.
#[verifier::rlimit(100)]
pub proof fn law_files_path_names_game_and_mod(game_id: i32, mod_id: i32)
    ensures
        path_segments(files_path_text(game_id, mod_id)) == seq![
            "games"@,
            int_text(game_id as int),
            "mods"@,
            int_text(mod_id as int),
            "files.json"@,
        ],
        parse_int_text(path_segments(files_path_text(game_id, mod_id))[1], true, i32::MIN as int, i32::MAX as int)
            == Some(game_id as int),
        parse_int_text(path_segments(files_path_text(game_id, mod_id))[3], true, i32::MIN as int, i32::MAX as int)
            == Some(mod_id as int),
{
    lemma_plain_literals();
    lemma_int_text_no_slash(game_id as int);
    lemma_int_text_no_slash(mod_id as int);
    law_int_text_round_trip(game_id as int, true, i32::MIN as int, i32::MAX as int);
    law_int_text_round_trip(mod_id as int, true, i32::MIN as int, i32::MAX as int);
    let parts = seq!["games"@, int_text(game_id as int), "mods"@, int_text(mod_id as int), "files.json"@];
    assert(plain_parts(parts));
    reveal_with_fuel(slash_joined, 6);
    assert(files_path_text(game_id, mod_id) =~= slash_joined(parts));
    lemma_slash_joined_segments(parts);
}

/// The details endpoint describes the asked mod of the client's game: its
/// path is `/games/<game_id>/mods/<mod_id>.json`.
#[verifier::rlimit(100)]
pub proof fn law_details_path_names_game_and_mod(game_id: i32, mod_id: i32)
    ensures
        path_segments(details_path_text(game_id, mod_id)) == seq![
            "games"@,
            int_text(game_id as int),
            "mods"@,
            int_text(mod_id as int) + ".json"@,
        ],
        parse_int_text(path_segments(details_path_text(game_id, mod_id))[1], true, i32::MIN as int, i32::MAX as int)
            == Some(game_id as int),
{
    lemma_plain_literals();
    lemma_int_text_no_slash(game_id as int);
    lemma_int_text_no_slash(mod_id as int);
    law_int_text_round_trip(game_id as int, true, i32::MIN as int, i32::MAX as int);
    let last = int_text(mod_id as int) + ".json"@;
    assert(!last.contains('/')) by {
        if last.contains('/') {
            let i = choose|i: int| 0 <= i < last.len() && last[i] == '/';
            if i < int_text(mod_id as int).len() {
                assert(int_text(mod_id as int)[i] == '/');
            } else {
                assert(".json"@[i - int_text(mod_id as int).len()] == '/');
            }
        }
    }
    let parts = seq!["games"@, int_text(game_id as int), "mods"@, last];
    assert(plain_parts(parts));
    reveal_with_fuel(slash_joined, 5);
    assert(details_path_text(game_id, mod_id) =~= slash_joined(parts));
    lemma_slash_joined_segments(parts);
}

/// The download endpoint asks for the given file of the given mod: without
/// a key its path is `/games/<game_id>/mods/<mod_id>/files/<file_id>/download.json`,
/// whose segments after `mods` and after `files` read back as the mod id and the
/// file id; with an `nxm://` link the same path comes first.
#[verifier::rlimit(100)]
pub proof fn law_download_path_names_mod_and_file(game_id: i32, mod_id: i32, file_id: i32)
    ensures
        path_segments(download_path_text(game_id, mod_id, file_id, None)) == seq![
            "games"@,
            int_text(game_id as int),
            "mods"@,
            int_text(mod_id as int),
            "files"@,
            int_text(file_id as int),
            "download.json"@,
        ],
        parse_int_text(
            path_segments(download_path_text(game_id, mod_id, file_id, None))[1],
            true,
            i32::MIN as int,
            i32::MAX as int,
        ) == Some(game_id as int),
        parse_int_text(
            path_segments(download_path_text(game_id, mod_id, file_id, None))[3],
            true,
            i32::MIN as int,
            i32::MAX as int,
        ) == Some(mod_id as int),
        parse_int_text(
            path_segments(download_path_text(game_id, mod_id, file_id, None))[5],
            true,
            i32::MIN as int,
            i32::MAX as int,
        ) == Some(file_id as int),
        forall|l: NxmModel|
            (#[trigger] download_path_text(game_id, mod_id, file_id, Some(l))).len() >= download_path_text(
                game_id,
                mod_id,
                file_id,
                None,
            ).len() && download_path_text(game_id, mod_id, file_id, Some(l)).take(
                download_path_text(game_id, mod_id, file_id, None).len() as int,
            ) == download_path_text(game_id, mod_id, file_id, None),
{
    lemma_plain_literals();
    lemma_int_text_no_slash(game_id as int);
    lemma_int_text_no_slash(mod_id as int);
    lemma_int_text_no_slash(file_id as int);
    law_int_text_round_trip(game_id as int, true, i32::MIN as int, i32::MAX as int);
    law_int_text_round_trip(mod_id as int, true, i32::MIN as int, i32::MAX as int);
    law_int_text_round_trip(file_id as int, true, i32::MIN as int, i32::MAX as int);
    let parts = seq![
        "games"@,
        int_text(game_id as int),
        "mods"@,
        int_text(mod_id as int),
        "files"@,
        int_text(file_id as int),
        "download.json"@,
    ];
    assert(plain_parts(parts));
    reveal_with_fuel(slash_joined, 8);
    let base = download_path_text(game_id, mod_id, file_id, None);
    assert(base =~= slash_joined(parts));
    lemma_slash_joined_segments(parts);
    assert forall|l: NxmModel|
        (#[trigger] download_path_text(game_id, mod_id, file_id, Some(l))).len() >= base.len()
            && download_path_text(game_id, mod_id, file_id, Some(l)).take(base.len() as int) == base by {
        let t = download_path_text(game_id, mod_id, file_id, Some(l));
        match (l.3, l.4) {
            (Some(k), Some(e)) => {
                assert(t == base + ("?key="@ + k + "&expires="@ + int_text(e))) by {
                    assert(t =~= base + ("?key="@ + k + "&expires="@ + int_text(e)));
                }
                assert(t.take(base.len() as int) =~= base);
            },
            _ => {
                assert(t.take(base.len() as int) =~= base);
            },
        }
    }
}

// ---------------------------------------------------------------------------
// Which query pairs a link reads
// ---------------------------------------------------------------------------

/// A query value is that of the last pair with the name asked for: `None`
/// exactly when no pair has the name, else the value of a pair with the name
/// that no later pair with the name follows.
pub proof fn law_last_value_is_last_match(q: Seq<(Seq<char>, Seq<char>)>, name: Seq<char>)
    ensures
        last_value(q, name) is None <==> forall|i: int| 0 <= i < q.len() ==> (#[trigger] q[i]).0 != name,
        last_value(q, name) matches Some(v) ==> exists|i: int|
            0 <= i < q.len() && #[trigger] q[i] == (name, v) && forall|j: int| i < j < q.len() ==> (#[trigger] q[j]).0
                != name,
    decreases q.len(),
{
    if q.len() > 0 {
        let rest = q.drop_last();
        law_last_value_is_last_match(rest, name);
        if q.last().0 == name {
            assert(q[q.len() - 1] == (name, q.last().1));
        } else {
            assert forall|i: int| 0 <= i < rest.len() implies rest[i] == q[i] by {}
            if let Some(v) = last_value(rest, name) {
                let i = choose|i: int|
                    0 <= i < rest.len() && #[trigger] rest[i] == (name, v) && forall|j: int|
                        i < j < rest.len() ==> (#[trigger] rest[j]).0 != name;
                assert(q[i] == (name, v));
                assert forall|j: int| i < j < q.len() implies (#[trigger] q[j]).0 != name by {
                    if j < rest.len() {
                        assert(rest[j] == q[j]);
                    }
                }
            } else {
                assert forall|i: int| 0 <= i < q.len() implies (#[trigger] q[i]).0 != name by {
                    if i < rest.len() {
                        assert(rest[i] == q[i]);
                    }
                }
            }
        }
    }
}

/// Query pairs with other names change no value read from a link: the key
/// (or any other value) stays that of the last pair with its name, whatever
/// pairs with other names follow.
pub proof fn law_other_pairs_keep_values(
    q: Seq<(Seq<char>, Seq<char>)>,
    extra: Seq<(Seq<char>, Seq<char>)>,
    name: Seq<char>,
)
    requires
        forall|i: int| 0 <= i < extra.len() ==> (#[trigger] extra[i]).0 != name,
    ensures
        last_value(q + extra, name) == last_value(q, name),
    decreases extra.len(),
{
    if extra.len() == 0 {
        assert(q + extra =~= q);
    } else {
        let e2 = extra.drop_last();
        assert forall|i: int| 0 <= i < e2.len() implies (#[trigger] e2[i]).0 != name by {
            assert(e2[i] == extra[i]);
        }
        law_other_pairs_keep_values(q, e2, name);
        assert((q + extra).drop_last() =~= q + e2);
        assert((q + extra).last() == extra[extra.len() - 1]);
    }
}

/// Pairs not named `expires` change no expiry read from a link.
pub proof fn law_other_pairs_keep_expiry(q: Seq<(Seq<char>, Seq<char>)>, extra: Seq<(Seq<char>, Seq<char>)>)
    requires
        forall|i: int| 0 <= i < extra.len() ==> (#[trigger] extra[i]).0 != "expires"@,
    ensures
        expires_value(q + extra) == expires_value(q),
    decreases extra.len(),
{
    if extra.len() == 0 {
        assert(q + extra =~= q);
    } else {
        let e2 = extra.drop_last();
        assert forall|i: int| 0 <= i < e2.len() implies (#[trigger] e2[i]).0 != "expires"@ by {
            assert(e2[i] == extra[i]);
        }
        law_other_pairs_keep_expiry(q, e2);
        assert((q + extra).drop_last() =~= q + e2);
        assert((q + extra).last() == extra[extra.len() - 1]);
    }
}

} // verus!
