//! Content negotiation for the scrape and index routes: which body format
//! an `Accept` header selects, and which landing page a client gets.
//!
//! Parsing the header is delegated to the `accept_header` crate behind a
//! trusted wrapper that hands back plain values: the media-type essences in
//! priority order and whether a wildcard range was present. Everything
//! decided from those values is verified.

use vstd::prelude::*;

use core::str::FromStr;

verus! {

/// What parsing an `Accept` header yields: the media-type essences in the
/// header's priority order and whether a wildcard range was present, or
/// nothing where the header does not parse. The parse depends on the header
/// text alone, so the result carries a name rather than a page of grammar.
pub uninterp spec fn accept_parse(header: Seq<char>) -> Option<(Seq<Seq<char>>, bool)>;

/// A parse result as plain views, for stating what the parser returned.
pub open spec fn parsed_accept_view(r: Option<(Vec<String>, bool)>) -> Option<
    (Seq<Seq<char>>, bool),
> {
    match r {
        Option::Some((types, wildcard)) => Option::Some(
            (types@.map_values(|t: String| t@), wildcard),
        ),
        Option::None => Option::None,
    }
}

/// Relies on `accept_header::Accept::from_str` and `mime::Mime::essence_str`:
/// the returned strings are the parsed media-type essences in the header's
/// priority order (wildcard ranges excluded), with the flag saying whether a
/// wildcard range was present; an unparsable header yields nothing. The
/// parse depends on the header text alone.
#[verifier::external_body]
fn parse_accept(header: &str) -> (r: Option<(Vec<String>, bool)>)
    ensures
        parsed_accept_view(r) == accept_parse(header@),
{
    match accept_header::Accept::from_str(header) {
        Ok(accept) => {
            let types = accept.types.iter().map(|t| t.mime.essence_str().to_string()).collect();
            Some((types, accept.wildcard.is_some()))
        },
        Err(_) => None,
    }
}

/// Whether two characters match ignoring ASCII case.
pub open spec fn char_eq_ci(a: char, b: char) -> bool {
    ||| a == b
    ||| ('A' <= a && a <= 'Z' && (a as u32) + 32 == (b as u32))
    ||| ('A' <= b && b <= 'Z' && (b as u32) + 32 == (a as u32))
}

/// Whether two strings match ignoring ASCII case.
pub open spec fn seq_eq_ci(a: Seq<char>, b: Seq<char>) -> bool {
    a.len() == b.len() && forall|i: int| 0 <= i < a.len() ==> char_eq_ci(a[i], #[trigger] b[i])
}

/// Compares two strings ignoring ASCII case, as media-type essences are
/// compared.
pub fn str_eq_ci(a: &str, b: &str) -> (r: bool)
    ensures
        r == seq_eq_ci(a@, b@),
{
    let an = a.unicode_len();
    let bn = b.unicode_len();
    if an != bn {
        return false;
    }
    let mut i: usize = 0;
    while i < an
        invariant
            an == a@.len() == b@.len(),
            0 <= i <= an,
            forall|j: int| 0 <= j < i ==> char_eq_ci(a@[j], #[trigger] b@[j]),
        decreases an - i,
    {
        let x = a.get_char(i) as u32;
        let y = b.get_char(i) as u32;
        let same = x == y || (65 <= x && x <= 90 && x + 32 == y) || (65 <= y && y <= 90 && y + 32
            == x);
        if !same {
            return false;
        }
        i += 1;
    }
    true
}

/// The body format of a scrape response.
#[derive(Clone, Copy, Debug, PartialEq, Eq, Structural)]
pub enum PromFormat {
    /// Prometheus text exposition.
    Text,
    /// Pretty-printed JSON.
    Json,
}

impl PromFormat {
    /// The Content-Type the response carries: the text format always names
    /// the exposition version and charset.
    pub open spec fn content_type_view(self) -> Seq<char> {
        match self {
            PromFormat::Text => "text/plain; version=0.0.4; charset=utf-8"@,
            PromFormat::Json => "application/json"@,
        }
    }

    /// The Content-Type the response carries.
    pub fn content_type(self) -> (r: &'static str)
        ensures
            r@ == self.content_type_view(),
    {
        match self {
            PromFormat::Text => "text/plain; version=0.0.4; charset=utf-8",
            PromFormat::Json => "application/json",
        }
    }
}

/// The scrape format the parsed header selects: the first media type that is
/// plain text or JSON wins; a wildcard falls back to plain text; anything
/// else is not acceptable.
pub open spec fn negotiate_prom_spec(types: Seq<Seq<char>>, wildcard: bool) -> Option<PromFormat>
    decreases types.len(),
{
    if types.len() == 0 {
        if wildcard {
            Option::Some(PromFormat::Text)
        } else {
            Option::None
        }
    } else if seq_eq_ci(types[0], "text/plain"@) {
        Option::Some(PromFormat::Text)
    } else if seq_eq_ci(types[0], "application/json"@) {
        Option::Some(PromFormat::Json)
    } else {
        negotiate_prom_spec(types.skip(1), wildcard)
    }
}

/// Selects the scrape format from parsed media-type essences.
pub fn negotiate_prometheus_types(types: &Vec<String>, wildcard: bool) -> (r: Option<PromFormat>)
    ensures
        r == negotiate_prom_spec(types@.map_values(|t: String| t@), wildcard),
{
    let ghost tv = types@.map_values(|t: String| t@);
    let n = types.len();
    let mut i: usize = 0;
    proof {
        assert(tv.skip(0) =~= tv);
    }
    while i < n
        invariant
            n == types@.len(),
            0 <= i <= n,
            tv == types@.map_values(|t: String| t@),
            negotiate_prom_spec(tv, wildcard) == negotiate_prom_spec(tv.skip(i as int), wildcard),
        decreases n - i,
    {
        proof {
            assert(tv.skip(i as int)[0] == tv[i as int]);
        }
        if str_eq_ci(types[i].as_str(), "text/plain") {
            return Some(PromFormat::Text);
        }
        if str_eq_ci(types[i].as_str(), "application/json") {
            return Some(PromFormat::Json);
        }
        proof {
            assert(tv.skip(i as int).skip(1) =~= tv.skip(i + 1));
        }
        i += 1;
    }
    proof {
        assert(tv.skip(n as int) =~= Seq::<Seq<char>>::empty());
    }
    if wildcard {
        Some(PromFormat::Text)
    } else {
        None
    }
}

/// The scrape response to a present `Accept` header: an unparsable header
/// defaults to the Prometheus text format; a parsed one gets the format its
/// types select, or 406 where they select none.
pub open spec fn prom_format_for(header: Seq<char>) -> Result<PromFormat, u16> {
    match accept_parse(header) {
        Option::None => Result::Ok(PromFormat::Text),
        Option::Some((types, wildcard)) => match negotiate_prom_spec(types, wildcard) {
            Option::Some(f) => Result::Ok(f),
            Option::None => Result::Err(406u16),
        },
    }
}

/// Negotiates the scrape format from the raw `Accept` header: a missing or
/// unparsable header defaults to the Prometheus text format; a parsed header
/// gets exactly the format its media types select; one that accepts neither
/// plain text nor JSON nor a wildcard is refused with 406.
pub fn negotiate_prometheus_mime(header: Option<&str>) -> (r: Result<PromFormat, u16>)
    ensures
        header is None ==> r == Result::<PromFormat, u16>::Ok(PromFormat::Text),
        header is Some ==> r == prom_format_for(header->0@),
        r is Err ==> r->Err_0 == 406,
{
    match header {
        None => Ok(PromFormat::Text),
        Some(h) => match parse_accept(h) {
            None => Ok(PromFormat::Text),
            Some((types, wildcard)) => match negotiate_prometheus_types(&types, wildcard) {
                Some(f) => Ok(f),
                None => Err(406),
            },
        },
    }
}

/// The landing page a client gets.
#[derive(Clone, Copy, Debug, PartialEq, Eq, Structural)]
pub enum IndexPage {
    /// ANSI-coloured plain text, for terminal clients.
    AnsiText,
    /// Plain text.
    PlainText,
    /// HTML.
    Html,
}

impl IndexPage {
    /// The Content-Type the page carries.
    pub open spec fn content_type_view(self) -> Seq<char> {
        match self {
            IndexPage::AnsiText => "text/plain; charset=utf-8"@,
            IndexPage::PlainText => "text/plain; charset=utf-8"@,
            IndexPage::Html => "text/html; charset=utf-8"@,
        }
    }

    /// The Content-Type the page carries.
    pub fn content_type(self) -> (r: &'static str)
        ensures
            r@ == self.content_type_view(),
    {
        match self {
            IndexPage::AnsiText => "text/plain; charset=utf-8",
            IndexPage::PlainText => "text/plain; charset=utf-8",
            IndexPage::Html => "text/html; charset=utf-8",
        }
    }
}

/// Whether `s` starts with `p`.
pub open spec fn starts_with_spec(s: Seq<char>, p: Seq<char>) -> bool {
    s.len() >= p.len() && s.take(p.len() as int) == p
}

/// Whether `s` starts with `p`.
pub fn str_starts_with(s: &str, p: &str) -> (r: bool)
    ensures
        r == starts_with_spec(s@, p@),
{
    let sn = s.unicode_len();
    let pn = p.unicode_len();
    if sn < pn {
        return false;
    }
    let mut i: usize = 0;
    while i < pn
        invariant
            sn == s@.len(),
            pn == p@.len() <= sn,
            0 <= i <= pn,
            forall|j: int| 0 <= j < i ==> s@[j] == p@[j],
        decreases pn - i,
    {
        if s.get_char(i) != p.get_char(i) {
            proof {
                assert(s@.take(pn as int)[i as int] != p@[i as int]);
            }
            return false;
        }
        i += 1;
    }
    proof {
        assert(s@.take(pn as int) =~= p@);
    }
    true
}

/// Whether the user agent is a terminal downloader, which prefers plain
/// text.
pub open spec fn is_terminal_spec(ua: Seq<char>) -> bool {
    starts_with_spec(ua, "curl/"@) || starts_with_spec(ua, "Wget/"@)
}

/// Whether the user agent is a terminal downloader.
pub fn is_terminal_agent(user_agent: Option<&str>) -> (r: bool)
    ensures
        r == match user_agent {
            Option::Some(ua) => is_terminal_spec(ua@),
            Option::None => false,
        },
{
    match user_agent {
        Some(ua) => str_starts_with(ua, "curl/") || str_starts_with(ua, "Wget/"),
        None => false,
    }
}

/// The page the parsed header selects: the first media type that is plain
/// text or HTML wins; a wildcard takes the preferred page, plain text for
/// terminals and HTML otherwise; anything else is not acceptable. Terminals
/// that take plain text get the ANSI-coloured page.
pub open spec fn negotiate_index_spec(
    types: Seq<Seq<char>>,
    wildcard: bool,
    terminal: bool,
) -> Option<IndexPage>
    decreases types.len(),
{
    if types.len() == 0 {
        if wildcard {
            if terminal {
                Option::Some(IndexPage::AnsiText)
            } else {
                Option::Some(IndexPage::Html)
            }
        } else {
            Option::None
        }
    } else if seq_eq_ci(types[0], "text/plain"@) {
        if terminal {
            Option::Some(IndexPage::AnsiText)
        } else {
            Option::Some(IndexPage::PlainText)
        }
    } else if seq_eq_ci(types[0], "text/html"@) {
        Option::Some(IndexPage::Html)
    } else {
        negotiate_index_spec(types.skip(1), wildcard, terminal)
    }
}

/// Selects the landing page from parsed media-type essences.
pub fn negotiate_index_types(types: &Vec<String>, wildcard: bool, terminal: bool) -> (r: Option<
    IndexPage,
>)
    ensures
        r == negotiate_index_spec(types@.map_values(|t: String| t@), wildcard, terminal),
{
    let ghost tv = types@.map_values(|t: String| t@);
    let n = types.len();
    let mut i: usize = 0;
    proof {
        assert(tv.skip(0) =~= tv);
    }
    while i < n
        invariant
            n == types@.len(),
            0 <= i <= n,
            tv == types@.map_values(|t: String| t@),
            negotiate_index_spec(tv, wildcard, terminal) == negotiate_index_spec(
                tv.skip(i as int),
                wildcard,
                terminal,
            ),
        decreases n - i,
    {
        proof {
            assert(tv.skip(i as int)[0] == tv[i as int]);
        }
        if str_eq_ci(types[i].as_str(), "text/plain") {
            if terminal {
                return Some(IndexPage::AnsiText);
            } else {
                return Some(IndexPage::PlainText);
            }
        }
        if str_eq_ci(types[i].as_str(), "text/html") {
            return Some(IndexPage::Html);
        }
        proof {
            assert(tv.skip(i as int).skip(1) =~= tv.skip(i + 1));
        }
        i += 1;
    }
    proof {
        assert(tv.skip(n as int) =~= Seq::<Seq<char>>::empty());
    }
    if wildcard {
        if terminal {
            Some(IndexPage::AnsiText)
        } else {
            Some(IndexPage::Html)
        }
    } else {
        None
    }
}

/// The landing page for a present `Accept` header: an unparsable header
/// serves HTML; a parsed one gets the page its types select, given whether
/// the client is a terminal, or 406 where they select none.
pub open spec fn index_page_for(header: Seq<char>, terminal: bool) -> Result<IndexPage, u16> {
    match accept_parse(header) {
        Option::None => Result::Ok(IndexPage::Html),
        Option::Some((types, wildcard)) => match negotiate_index_spec(types, wildcard, terminal) {
            Option::Some(page) => Result::Ok(page),
            Option::None => Result::Err(406u16),
        },
    }
}

/// Whether an optional user agent is a terminal downloader.
pub open spec fn terminal_view(user_agent: Option<&str>) -> bool {
    match user_agent {
        Option::Some(ua) => is_terminal_spec(ua@),
        Option::None => false,
    }
}

/// Negotiates the landing page from the raw headers: a missing or
/// unparsable `Accept` header serves HTML; a parsed header gets exactly the
/// page its media types select, terminal user agents preferring plain text;
/// one that accepts neither plain text nor HTML nor a wildcard is refused
/// with 406.
pub fn negotiate_index(user_agent: Option<&str>, accept: Option<&str>) -> (r: Result<
    IndexPage,
    u16,
>)
    ensures
        accept is None ==> r == Result::<IndexPage, u16>::Ok(IndexPage::Html),
        accept is Some ==> r == index_page_for(accept->0@, terminal_view(user_agent)),
        r is Err ==> r->Err_0 == 406,
{
    let terminal = is_terminal_agent(user_agent);
    match accept {
        None => Ok(IndexPage::Html),
        Some(h) => match parse_accept(h) {
            None => Ok(IndexPage::Html),
            Some((types, wildcard)) => match negotiate_index_types(&types, wildcard, terminal) {
                Some(page) => Ok(page),
                None => Err(406),
            },
        },
    }
}

} // verus!
