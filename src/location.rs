//! A URL as plain components, with normalisation, resolution and the protocol check.

use vstd::prelude::*;
use crate::text::{chars_of, string_of};

verus! {

/// A parsed absolute URL, held as its components.
pub struct Url {
    pub scheme: String,
    /// Whether the text has `//` after the scheme.
    pub has_authority: bool,
    pub username: String,
    pub password: Option<String>,
    pub host: Option<String>,
    pub port: Option<u16>,
    pub path: String,
    pub query: Option<String>,
    pub fragment: Option<String>,
}

/// The components of a [`Url`] as character sequences.
pub ghost struct UrlView {
    pub scheme: Seq<char>,
    pub has_authority: bool,
    pub username: Seq<char>,
    pub password: Option<Seq<char>>,
    pub host: Option<Seq<char>>,
    pub port: Option<u16>,
    pub path: Seq<char>,
    pub query: Option<Seq<char>>,
    pub fragment: Option<Seq<char>>,
}

pub open spec fn text_opt(o: Option<String>) -> Option<Seq<char>> {
    match o {
        Some(s) => Some(s@),
        None => None,
    }
}

impl View for Url {
    type V = UrlView;

    open spec fn view(&self) -> UrlView {
        UrlView {
            scheme: self.scheme@,
            has_authority: self.has_authority,
            username: self.username@,
            password: text_opt(self.password),
            host: text_opt(self.host),
            port: self.port,
            path: self.path@,
            query: text_opt(self.query),
            fragment: text_opt(self.fragment),
        }
    }
}

/// A URL without an authority carries neither username nor password.
pub open spec fn userinfo_consistent(u: UrlView) -> bool {
    !u.has_authority ==> u.username.len() == 0 && u.password is None
}

/// What the `url` crate makes of a text parsed as an absolute URL.
pub uninterp spec fn url_parse(s: Seq<char>) -> Option<UrlView>;

/// The text of what the `url` crate makes of `reference` resolved against the URL `base`.
pub uninterp spec fn url_join(base: Seq<char>, reference: Seq<char>) -> Option<Seq<char>>;

/// Relies on `url::Url::parse` and its component getters: the components of the parsed URL;
/// `username` and `password` are empty and `None` when the URL has no authority.
#[verifier::external_body]
fn parse(s: &str) -> (r: Option<Url>)
    ensures
        r is Some <==> url_parse(s@) is Some,
        r matches Some(u) ==> u@ == url_parse(s@).unwrap() && userinfo_consistent(u@),
{
    let u = ::url::Url::parse(s).ok()?;
    Some(Url {
        scheme: u.scheme().into(),
        has_authority: u.has_authority(),
        username: u.username().into(),
        password: u.password().map(String::from),
        host: u.host_str().map(String::from),
        port: u.port(),
        path: u.path().into(),
        query: u.query().map(String::from),
        fragment: u.fragment().map(String::from),
    })
}

/// Relies on `url::Url::join`: parses `base` and resolves `reference` against it.
#[verifier::external_body]
fn join(base: &str, reference: &str) -> (r: Option<String>)
    ensures
        r is Some <==> url_join(base@, reference@) is Some,
        r matches Some(t) ==> t@ == url_join(base@, reference@).unwrap(),
{
    ::url::Url::parse(base).ok()?.join(reference).ok().map(String::from)
}

/// The decimal digit for `d < 10`.
pub open spec fn digit(d: nat) -> char {
    if d < 10 {
        (('0' as u32) + d) as char
    } else {
        '0'
    }
}

/// Decimal notation of a number, without leading zeros.
pub open spec fn decimal(n: nat) -> Seq<char>
    decreases n,
{
    if n < 10 {
        seq![digit(n)]
    } else {
        decimal(n / 10).push(digit(n % 10))
    }
}

pub open spec fn opt_text(o: Option<Seq<char>>) -> Seq<char> {
    match o {
        Some(t) => t,
        None => Seq::empty(),
    }
}

/// `username[:password]@`, or nothing when both are empty.
pub open spec fn userinfo_text(u: UrlView) -> Seq<char> {
    if u.username.len() == 0 && u.password is None {
        Seq::empty()
    } else {
        u.username + match u.password {
            Some(p) => seq![':'] + p,
            None => Seq::empty(),
        } + seq!['@']
    }
}

/// `//userinfo host:port`, or nothing when the URL has no authority.
pub open spec fn authority_text(u: UrlView) -> Seq<char> {
    if u.has_authority {
        seq!['/', '/'] + userinfo_text(u) + opt_text(u.host) + match u.port {
            Some(p) => seq![':'] + decimal(p as nat),
            None => Seq::empty(),
        }
    } else {
        Seq::empty()
    }
}

/// The text of a URL: `scheme:` authority, path, `?query`, `#fragment`.
pub open spec fn serialized(u: UrlView) -> Seq<char> {
    u.scheme + seq![':'] + authority_text(u) + u.path + match u.query {
        Some(q) => seq!['?'] + q,
        None => Seq::empty(),
    } + match u.fragment {
        Some(f) => seq!['#'] + f,
        None => Seq::empty(),
    }
}

/// The URL `data:,`, an empty `data:` URL.
pub open spec fn sentinel() -> UrlView {
    UrlView {
        scheme: seq!['d', 'a', 't', 'a'],
        has_authority: false,
        username: Seq::empty(),
        password: None,
        host: None,
        port: None,
        path: seq![','],
        query: None,
        fragment: None,
    }
}

fn push_str(out: &mut Vec<char>, s: &str)
    ensures
        final(out)@ == old(out)@ + s@,
{
    let cs = chars_of(s);
    out.extend_from_slice(cs.as_slice());
}

fn push_opt(out: &mut Vec<char>, prefix: char, o: &Option<String>)
    ensures
        final(out)@ == old(out)@ + match text_opt(*o) {
            Some(t) => seq![prefix] + t,
            None => Seq::empty(),
        },
{
    match o {
        Some(t) => {
            out.push(prefix);
            push_str(out, t.as_str());
            assert(final(out)@ =~= old(out)@ + (seq![prefix] + t@));
        },
        None => {
            assert(final(out)@ =~= old(out)@ + Seq::<char>::empty());
        },
    }
}

fn push_decimal(out: &mut Vec<char>, n: u16)
    ensures
        final(out)@ == old(out)@ + decimal(n as nat),
    decreases n,
{
    if n >= 10 {
        push_decimal(out, n / 10);
    }
    let d: u16 = n % 10;
    let c = if d == 0 { '0' } else if d == 1 { '1' } else if d == 2 { '2' } else if d == 3 {
        '3'
    } else if d == 4 { '4' } else if d == 5 { '5' } else if d == 6 { '6' } else if d == 7 {
        '7'
    } else if d == 8 { '8' } else { '9' };
    out.push(c);
    proof {
        assert(c == digit(d as nat));
        if n < 10 {
            assert(old(out)@ + decimal(n as nat) =~= final(out)@);
        } else {
            assert(old(out)@ + decimal(n as nat) =~= final(out)@);
        }
    }
}

/// The URL without its fragment.
pub open spec fn without_fragment(u: UrlView) -> UrlView {
    UrlView { fragment: None, ..u }
}

/// The URL without fragment, username and password.
pub open spec fn without_credentials(u: UrlView) -> UrlView {
    UrlView { fragment: None, username: Seq::empty(), password: None, ..u }
}

/// Cleaning a URL twice is the same as cleaning it once, and the result carries no fragment.
pub proof fn lemma_clean_url_idempotent(u: UrlView)
    ensures
        without_fragment(without_fragment(u)) == without_fragment(u),
        without_fragment(u).fragment is None,
{
}

impl Url {
    /// Parses an absolute URL, or gives `None` when the text is not one.
    pub fn parse(input: &str) -> (r: Option<Url>)
        ensures
            r is Some <==> url_parse(input@) is Some,
            r matches Some(u) ==> u@ == url_parse(input@).unwrap() && userinfo_consistent(u@),
    {
        parse(input)
    }

    /// The text of the URL.
    pub fn as_string(&self) -> (r: String)
        ensures
            r@ == serialized(self@),
    {
        let mut out: Vec<char> = Vec::new();
        push_str(&mut out, self.scheme.as_str());
        out.push(':');
        let ghost head = out@;
        if self.has_authority {
            out.push('/');
            out.push('/');
            let ghost start = out@;
            if self.username.as_str().unicode_len() != 0 || self.password.is_some() {
                push_str(&mut out, self.username.as_str());
                push_opt(&mut out, ':', &self.password);
                out.push('@');
            }
            assert(out@ =~= start + userinfo_text(self@));
            if let Some(h) = &self.host {
                push_str(&mut out, h.as_str());
            }
            assert(out@ =~= start + userinfo_text(self@) + opt_text(self@.host));
            let ghost before_port = out@;
            if let Some(p) = self.port {
                out.push(':');
                push_decimal(&mut out, p);
                assert(out@ =~= before_port + (seq![':'] + decimal(p as nat)));
            }
        }
        assert(out@ =~= head + authority_text(self@));
        push_str(&mut out, self.path.as_str());
        push_opt(&mut out, '?', &self.query);
        push_opt(&mut out, '#', &self.fragment);
        assert(out@ =~= serialized(self@));
        string_of(out.as_slice())
    }
}

fn empty_data_url() -> (r: Url)
    ensures
        r@ == sentinel(),
{
    proof {
        reveal_strlit("data");
        reveal_strlit(",");
    }
    let r = Url {
        scheme: String::from_str("data"),
        has_authority: false,
        username: String::new(),
        password: None,
        host: None,
        port: None,
        path: String::from_str(","),
        query: None,
        fragment: None,
    };
    assert(r.scheme@ =~= seq!['d', 'a', 't', 'a']);
    assert(r.path@ =~= seq![',']);
    assert(r@ =~= sentinel());
    r
}

/// The URL without its fragment; every other component is kept.
pub fn clean_url(url: Url) -> (r: Url)
    ensures
        r@ == without_fragment(url@),
{
    Url { fragment: None, ..url }
}

/// The URL as it may be sent in a `Referer` header: without fragment, username or password.
/// For a URL without an authority only the fragment goes.
pub fn get_referer_url(url: Url) -> (r: Url)
    ensures
        r@ == without_credentials(url@),
        userinfo_consistent(url@) && !url@.has_authority ==> r@ == without_fragment(url@),
{
    let r = Url { fragment: None, username: String::new(), password: None, ..url };
    assert(r@ =~= without_credentials(url@));
    proof {
        if userinfo_consistent(url@) && !url@.has_authority {
            assert(url@.username =~= Seq::<char>::empty());
            assert(r@ =~= without_fragment(url@));
        }
    }
    r
}

/// `to` resolved against `from`: `to` itself when it is an absolute URL, else `to` joined onto
/// `from`, else the empty `data:,` URL.
pub fn resolve_url(from: &Url, to: &str) -> (r: Url)
    ensures
        url_parse(to@) matches Some(v) ==> r@ == v,
        url_parse(to@) is None ==> r@ == match url_join(serialized(from@), to@) {
            Some(t) => match url_parse(t) {
                Some(v) => v,
                None => sentinel(),
            },
            None => sentinel(),
        },
{
    match parse(to) {
        Some(u) => u,
        None => match join(from.as_string().as_str(), to) {
            Some(t) => match parse(t.as_str()) {
                Some(u) => u,
                None => empty_data_url(),
            },
            None => empty_data_url(),
        },
    }
}

/// Whether the text parses as an absolute URL with a non-empty scheme.
pub fn is_url_and_has_protocol(input: &str) -> (r: bool)
    ensures
        r == (url_parse(input@) matches Some(v) && v.scheme.len() > 0),
{
    match parse(input) {
        Some(u) => u.scheme.as_str().unicode_len() != 0,
        None => false,
    }
}

} // verus!
