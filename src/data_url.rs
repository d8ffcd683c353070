//! Encoding payloads as `data:` URLs and decoding them back.

use vstd::prelude::*;
use base64::Engine;
use crate::location::{Url, UrlView};
use crate::text::{
    chars_eq_ignore_case, chars_of, eq_ignore_case, is_space, pieces_view, slice_eq_ignore_case,
    split_chars, split_on, string_of, trim_chars, trim_end, trim_start, trimmed,
};

verus! {

/// The text that base64's standard padded engine makes of the bytes.
pub uninterp spec fn base64_of(b: Seq<u8>) -> Seq<char>;

/// What base64's standard padded engine decodes the text into, if it accepts it.
pub uninterp spec fn base64_decoded(s: Seq<char>) -> Option<Seq<u8>>;

/// The text that percent-decoding gives, with invalid UTF-8 replaced.
pub uninterp spec fn percent_decoded(s: Seq<char>) -> Seq<char>;

/// The path that the `url` crate stores when it is given `p` as the path of a `data:` URL.
pub uninterp spec fn opaque_path(p: Seq<char>) -> Seq<char>;

/// A 1x1 transparent PNG as a percent-encoded `data:` URL, for use as a placeholder image.
pub const EMPTY_IMAGE_DATA_URL: &'static str = "data:image/png,\
%89PNG%0D%0A%1A%0A%00%00%00%0DIHDR%00%00%00%0D%00%00%00%0D%08%04%00%00%00%D8%E2%2C%F7%00%00%00%11IDATx%DAcd%C0%09%18G%A5%28%96%02%00%0A%F8%00%0E%CB%8A%EB%16%00%00%00%00IEND%AEB%60%82";

pub open spec fn is_base64_char(c: char) -> bool {
    ('A' <= c <= 'Z') || ('a' <= c <= 'z') || ('0' <= c <= '9') || c == '+' || c == '/' || c
        == '='
}

/// Printable ASCII, space included.
pub open spec fn is_printable(c: char) -> bool {
    ' ' <= c <= '~'
}

/// A path that a `data:` URL keeps exactly as given.
pub open spec fn is_plain_path(p: Seq<char>) -> bool {
    (forall|i: int| 0 <= i < p.len() ==> #[trigger] is_printable(p[i])) && (p.len() == 0 || p[0]
        != '/')
}

/// Relies on base64's `STANDARD` engine `encode`: padded standard-alphabet text, which the same
/// engine's `decode` turns back into the bytes.
#[verifier::external_body]
fn base64_encode(b: &[u8]) -> (r: String)
    ensures
        r@ == base64_of(b@),
        base64_decoded(r@) == Some(b@),
        forall|i: int| 0 <= i < r@.len() ==> #[trigger] is_base64_char(r@[i]),
{
    base64::engine::general_purpose::STANDARD.encode(b)
}

/// Relies on base64's `STANDARD` engine `decode`.
#[verifier::external_body]
fn base64_decode(s: &str) -> (r: Option<Vec<u8>>)
    ensures
        r is Some <==> base64_decoded(s@) is Some,
        r matches Some(v) ==> v@ == base64_decoded(s@).unwrap(),
{
    base64::engine::general_purpose::STANDARD.decode(s).ok()
}

/// Relies on `percent_encoding::percent_decode_str` and `decode_utf8_lossy`.
#[verifier::external_body]
fn percent_decode_lossy(s: &str) -> (r: String)
    ensures
        r@ == percent_decoded(s@),
{
    percent_encoding::percent_decode_str(s).decode_utf8_lossy().into_owned()
}

/// Relies on `url::Url::set_path` on the URL `data:,`: control and non-ASCII characters are
/// percent-encoded, tabs and newlines dropped and a leading `/` escaped; other text is kept.
#[verifier::external_body]
fn data_url_path(p: &str) -> (r: String)
    ensures
        r@ == opaque_path(p@),
        is_plain_path(p@) ==> r@ == p@,
{
    let mut u = ::url::Url::parse("data:,").expect("a literal URL");
    u.set_path(p);
    u.path().into()
}

pub open spec fn base64_word() -> Seq<char> {
    seq!['b', 'a', 's', 'e', '6', '4']
}

pub open spec fn charset_key() -> Seq<char> {
    seq!['c', 'h', 'a', 'r', 's', 'e', 't', '=']
}

/// A parameter of the form `charset=<value>` (the key is case-sensitive).
pub open spec fn is_charset_param(t: Seq<char>) -> bool {
    t.len() >= 8 && t.take(8) == charset_key()
}

/// Charset and base64 marker after reading the parameters in order; the last charset wins.
pub open spec fn params_of(items: Seq<Seq<char>>) -> (Seq<char>, bool)
    decreases items.len(),
{
    if items.len() == 0 {
        (Seq::empty(), false)
    } else {
        let prev = params_of(items.drop_last());
        let t = trimmed(items.last());
        if eq_ignore_case(t, base64_word()) {
            (prev.0, true)
        } else if is_charset_param(t) {
            (t.skip(8), prev.1)
        } else {
            prev
        }
    }
}

/// Media type, charset and base64 marker of the metadata of a `data:` URL, the part before the
/// comma: items split on `;`, the first being the media type.
pub open spec fn content_type_of(meta: Seq<char>) -> (Seq<char>, Seq<char>, bool) {
    let items = split_on(meta, ';');
    let params = params_of(items.drop_first());
    (trimmed(items[0]), params.0, params.1)
}

/// Index of the first comma, or the length when there is none.
pub open spec fn comma_index(p: Seq<char>) -> int
    decreases p.len(),
{
    if p.len() == 0 || p[0] == ',' {
        0
    } else {
        1 + comma_index(p.drop_first())
    }
}

/// The data text after percent-decoding; text without `%` decodes to itself.
pub open spec fn decoded_text(s: Seq<char>) -> Seq<char> {
    if s.contains('%') {
        percent_decoded(s)
    } else {
        s
    }
}

/// The payload carried by the data text.
pub open spec fn payload_of(data: Seq<char>, base64: bool) -> Seq<u8> {
    if base64 {
        match base64_decoded(decoded_text(data)) {
            Some(b) => b,
            None => Seq::empty(),
        }
    } else {
        vstd::utf8::encode_utf8(decoded_text(data))
    }
}

/// Media type, charset and payload that a `data:` URL with this path carries.
pub open spec fn data_url_fields(path: Seq<char>) -> (Seq<char>, Seq<char>, Seq<u8>) {
    let k = comma_index(path);
    let data = if k < path.len() {
        path.skip(k + 1)
    } else {
        Seq::empty()
    };
    let ct = content_type_of(path.take(k));
    (ct.0, ct.1, payload_of(data, ct.2))
}

fn is_base64_word(t: &[char]) -> (r: bool)
    ensures
        r == eq_ignore_case(t@, base64_word()),
{
    if t.len() != 6 {
        return false;
    }
    let r = chars_eq_ignore_case(t[0], 'b') && chars_eq_ignore_case(t[1], 'a')
        && chars_eq_ignore_case(t[2], 's') && chars_eq_ignore_case(t[3], 'e')
        && chars_eq_ignore_case(t[4], '6') && chars_eq_ignore_case(t[5], '4');
    proof {
        if r {
            assert(eq_ignore_case(t@, base64_word()));
        }
        if eq_ignore_case(t@, base64_word()) {
            assert(crate::text::char_eq_ignore_case(t@[5], base64_word()[5]));
        }
    }
    r
}

fn has_charset_key(t: &[char]) -> (r: bool)
    ensures
        r == is_charset_param(t@),
{
    let r = t.len() >= 8 && t[0] == 'c' && t[1] == 'h' && t[2] == 'a' && t[3] == 'r' && t[4]
        == 's' && t[5] == 'e' && t[6] == 't' && t[7] == '=';
    proof {
        if r {
            assert(t@.take(8) =~= charset_key());
        }
        if is_charset_param(t@) {
            assert(t@.take(8)[7] == charset_key()[7]);
        }
    }
    r
}

/// Reads the metadata of a `data:` URL into media type, charset and whether the payload is
/// base64.
pub fn parse_content_type(meta: &[char]) -> (r: (String, String, bool))
    ensures
        (r.0@, r.1@, r.2) == content_type_of(meta@),
{
    let items = split_chars(meta, meta.len(), ';');
    let ghost iv = pieces_view(items@);
    proof {
        assert(meta@.take(meta@.len() as int) =~= meta@);
    }
    let media = trim_chars(items[0].as_slice());
    let mut charset: Vec<char> = Vec::new();
    let mut is_base64 = false;
    let mut i: usize = 1;
    proof {
        assert(iv.subrange(1, 1) =~= Seq::<Seq<char>>::empty());
    }
    while i < items.len()
        invariant
            iv == pieces_view(items@),
            1 <= i <= items.len(),
            (charset@, is_base64) == params_of(iv.subrange(1, i as int)),
        decreases items.len() - i,
    {
        let t = trim_chars(items[i].as_slice());
        proof {
            assert(iv.subrange(1, i + 1).drop_last() =~= iv.subrange(1, i as int));
            assert(iv.subrange(1, i + 1).last() == items@[i as int]@);
        }
        if is_base64_word(t.as_slice()) {
            is_base64 = true;
        } else if has_charset_key(t.as_slice()) {
            let mut v: Vec<char> = Vec::new();
            let mut k: usize = 8;
            while k < t.len()
                invariant
                    8 <= k <= t.len(),
                    v@ == t@.subrange(8, k as int),
                decreases t.len() - k,
            {
                v.push(t[k]);
                assert(v@ =~= t@.subrange(8, k + 1));
                k += 1;
            }
            assert(v@ =~= t@.skip(8));
            charset = v;
        }
        i += 1;
    }
    assert(iv.subrange(1, iv.len() as int) =~= iv.drop_first());
    (string_of(media.as_slice()), string_of(charset.as_slice()), is_base64)
}

/// The media type, charset and payload of a `data:` URL.
///
/// The path splits at its first comma into metadata and data. The data is percent-decoded
/// (invalid UTF-8 replaced) and, when the metadata ends in `;base64`, base64-decoded; text that
/// is not valid base64 gives an empty payload.
pub fn parse_data_url(url: &Url) -> (r: (String, String, Vec<u8>))
    ensures
        (r.0@, r.1@, r.2@) == data_url_fields(url.path@),
{
    let path = chars_of(url.path.as_str());
    let mut k: usize = 0;
    assert(path@.skip(0) =~= path@);
    while k < path.len() && path[k] != ','
        invariant
            k <= path.len(),
            comma_index(path@) == k + comma_index(path@.skip(k as int)),
        decreases path.len() - k,
    {
        assert(path@.skip(k as int).drop_first() =~= path@.skip(k + 1));
        k += 1;
    }
    proof {
        let rest = path@.skip(k as int);
        if k < path.len() {
            assert(rest[0] == path@[k as int]);
        }
    }
    let mut meta: Vec<char> = Vec::new();
    let mut j: usize = 0;
    while j < k
        invariant
            k <= path.len(),
            j <= k,
            meta@ == path@.take(j as int),
        decreases k - j,
    {
        meta.push(path[j]);
        assert(meta@ =~= path@.take(j + 1));
        j += 1;
    }
    let mut data: Vec<char> = Vec::new();
    if k < path.len() {
        let mut j: usize = k + 1;
        while j < path.len()
            invariant
                k < path.len(),
                k + 1 <= j <= path.len(),
                data@ == path@.subrange(k + 1, j as int),
            decreases path.len() - j,
        {
            data.push(path[j]);
            assert(data@ =~= path@.subrange(k + 1, j + 1));
            j += 1;
        }
        assert(data@ =~= path@.skip(k + 1));
    }
    let ct = parse_content_type(meta.as_slice());
    let mut has_percent = false;
    let mut j: usize = 0;
    while j < data.len()
        invariant
            j <= data.len(),
            has_percent == (exists|x: int| 0 <= x < j && data@[x] == '%'),
        decreases data.len() - j,
    {
        if data[j] == '%' {
            has_percent = true;
        }
        j += 1;
    }
    let data_text = string_of(data.as_slice());
    let text = if has_percent {
        assert(data@.contains('%'));
        percent_decode_lossy(data_text.as_str())
    } else {
        data_text
    };
    assert(text@ == decoded_text(data@));
    let blob = if ct.2 {
        match base64_decode(text.as_str()) {
            Some(b) => b,
            None => Vec::new(),
        }
    } else {
        text.as_str().as_bytes_vec()
    };
    (ct.0, ct.1, blob)
}

pub open spec fn us_ascii() -> Seq<char> {
    seq!['U', 'S', '-', 'A', 'S', 'C', 'I', 'I']
}

/// The charset that a `data:` URL records: the trimmed text, unless it is empty or `US-ASCII`
/// in any case.
pub open spec fn effective_charset(c: Seq<char>) -> Seq<char> {
    let t = trimmed(c);
    if t.len() > 0 && !eq_ignore_case(t, us_ascii()) {
        t
    } else {
        Seq::empty()
    }
}

/// `;charset=<charset>` when a charset is recorded, else nothing.
pub open spec fn charset_suffix(c: Seq<char>) -> Seq<char> {
    if effective_charset(c).len() > 0 {
        seq![';'] + charset_key() + effective_charset(c)
    } else {
        Seq::empty()
    }
}

pub open spec fn base64_marker() -> Seq<char> {
    seq![';', 'b', 'a', 's', 'e', '6', '4', ',']
}

/// `<media type><charset suffix>;base64,<base64 payload>`.
pub open spec fn data_url_text(m: Seq<char>, c: Seq<char>, b: Seq<u8>) -> Seq<char> {
    m + charset_suffix(c) + base64_marker() + base64_of(b)
}

/// Printable text without the separators `,` and `;`.
pub open spec fn is_token_text(t: Seq<char>) -> bool {
    forall|i: int| 0 <= i < t.len() ==> is_printable(#[trigger] t[i]) && t[i] != ',' && t[i] != ';'
}

/// Media type and charset that come back unchanged from a `data:` URL made of them.
pub open spec fn round_trips(m: Seq<char>, c: Seq<char>) -> bool {
    &&& is_token_text(m)
    &&& trimmed(m) == m
    &&& (m.len() == 0 || m[0] != '/')
    &&& is_token_text(trimmed(c))
}

pub open spec fn png_magic() -> Seq<u8> {
    seq![0x89u8, 0x50u8, 0x4eu8, 0x47u8, 0x0du8, 0x0au8, 0x1au8, 0x0au8]
}

/// Media type recognised from the leading bytes of a payload, or empty.
pub open spec fn sniffed_media_type(d: Seq<u8>) -> Seq<char> {
    if d.len() >= 8 && d.take(8) == png_magic() {
        "image/png"@
    } else if d.len() >= 3 && d[0] == 0xffu8 && d[1] == 0xd8u8 && d[2] == 0xffu8 {
        "image/jpeg"@
    } else if d.len() >= 6 && d[0] == 0x47u8 && d[1] == 0x49u8 && d[2] == 0x46u8 && d[3] == 0x38u8
        && (d[4] == 0x37u8 || d[4] == 0x39u8) && d[5] == 0x61u8 {
        "image/gif"@
    } else if d.len() >= 12 && d[0] == 0x52u8 && d[1] == 0x49u8 && d[2] == 0x46u8 && d[3] == 0x46u8
        && d[8] == 0x57u8 && d[9] == 0x45u8 && d[10] == 0x42u8 && d[11] == 0x50u8 {
        "image/webp"@
    } else if d.len() >= 4 && d[0] == 0u8 && d[1] == 0u8 && d[2] == 1u8 && d[3] == 0u8 {
        "image/x-icon"@
    } else {
        Seq::empty()
    }
}

/// Whether a path ends in `.svg`, in any case.
pub open spec fn is_svg_path(p: Seq<char>) -> bool {
    p.len() >= 4 && eq_ignore_case(p.skip(p.len() - 4), seq!['.', 's', 'v', 'g'])
}

/// Best guess of a payload's media type: its leading bytes, else an `.svg` name, else empty.
pub open spec fn detected_media_type(d: Seq<u8>, u: UrlView) -> Seq<char> {
    if sniffed_media_type(d).len() > 0 {
        sniffed_media_type(d)
    } else if is_svg_path(u.path) {
        "image/svg+xml"@
    } else {
        Seq::empty()
    }
}

/// The media type written into a `data:` URL: the given one, or the detected one if none is given.
pub open spec fn effective_media_type(m: Seq<char>, d: Seq<u8>, u: UrlView) -> Seq<char> {
    if m.len() == 0 {
        detected_media_type(d, u)
    } else {
        m
    }
}

fn sniff_media_type(d: &[u8]) -> (r: String)
    ensures
        r@ == sniffed_media_type(d@),
{
    let n = d.len();
    if n >= 8 && d[0] == 0x89 && d[1] == 0x50 && d[2] == 0x4e && d[3] == 0x47 && d[4] == 0x0d
        && d[5] == 0x0a && d[6] == 0x1a && d[7] == 0x0a {
        assert(d@.take(8) =~= png_magic());
        String::from_str("image/png")
    } else if n >= 3 && d[0] == 0xff && d[1] == 0xd8 && d[2] == 0xff {
        proof {
            if d@.len() >= 8 && d@.take(8) == png_magic() {
                assert(d@.take(8)[0] == d@[0]);
            }
        }
        String::from_str("image/jpeg")
    } else if n >= 6 && d[0] == 0x47 && d[1] == 0x49 && d[2] == 0x46 && d[3] == 0x38 && (d[4]
        == 0x37 || d[4] == 0x39) && d[5] == 0x61 {
        proof {
            if d@.len() >= 8 && d@.take(8) == png_magic() {
                assert(d@.take(8)[0] == d@[0]);
            }
        }
        String::from_str("image/gif")
    } else if n >= 12 && d[0] == 0x52 && d[1] == 0x49 && d[2] == 0x46 && d[3] == 0x46 && d[8]
        == 0x57 && d[9] == 0x45 && d[10] == 0x42 && d[11] == 0x50 {
        proof {
            if d@.len() >= 8 && d@.take(8) == png_magic() {
                assert(d@.take(8)[0] == d@[0]);
            }
        }
        String::from_str("image/webp")
    } else if n >= 4 && d[0] == 0 && d[1] == 0 && d[2] == 1 && d[3] == 0 {
        proof {
            if d@.len() >= 8 && d@.take(8) == png_magic() {
                assert(d@.take(8)[0] == d@[0]);
            }
        }
        String::from_str("image/x-icon")
    } else {
        proof {
            if d@.len() >= 8 && d@.take(8) == png_magic() {
                assert(d@.take(8)[7] == d@[7]);
                assert(false);
            }
        }
        String::new()
    }
}

/// Guesses a payload's media type from its leading bytes, else from an `.svg` path of the URL
/// it came from; empty when neither tells.
pub fn detect_media_type(data: &[u8], url: &Url) -> (r: String)
    ensures
        r@ == detected_media_type(data@, url@),
{
    let sniffed = sniff_media_type(data);
    if sniffed.as_str().unicode_len() > 0 {
        return sniffed;
    }
    let p = chars_of(url.path.as_str());
    let n = p.len();
    if n >= 4 {
        let mut tail: Vec<char> = Vec::new();
        let mut k: usize = n - 4;
        while k < n
            invariant
                n == p.len(),
                n >= 4,
                n - 4 <= k <= n,
                tail@ == p@.subrange(n - 4, k as int),
            decreases n - k,
        {
            tail.push(p[k]);
            assert(tail@ =~= p@.subrange(n - 4, k + 1));
            k += 1;
        }
        assert(tail@ =~= p@.skip(n - 4));
        let svg = chars_eq_ignore_case(tail[0], '.') && chars_eq_ignore_case(tail[1], 's')
            && chars_eq_ignore_case(tail[2], 'v') && chars_eq_ignore_case(tail[3], 'g');
        proof {
            let w = seq!['.', 's', 'v', 'g'];
            if svg {
                assert(eq_ignore_case(tail@, w));
            }
            if eq_ignore_case(tail@, w) {
                assert(crate::text::char_eq_ignore_case(tail@[3], w[3]));
            }
        }
        if svg {
            return String::from_str("image/svg+xml");
        }
    }
    String::new()
}

proof fn lemma_comma_index(pre: Seq<char>, rest: Seq<char>)
    requires
        !pre.contains(','),
    ensures
        comma_index(pre + seq![','] + rest) == pre.len(),
    decreases pre.len(),
{
    let p = pre + seq![','] + rest;
    if pre.len() > 0 {
        assert(p[0] == pre[0]);
        assert(!pre.drop_first().contains(',')) by {
            if pre.drop_first().contains(',') {
                let x = choose|x: int| 0 <= x < pre.drop_first().len() && pre.drop_first()[x]
                    == ',';
                assert(pre[x + 1] == ',');
            }
        }
        assert(p.drop_first() =~= pre.drop_first() + seq![','] + rest);
        lemma_comma_index(pre.drop_first(), rest);
    } else {
        assert(p[0] == ',');
    }
}

proof fn lemma_split_concat(x: Seq<char>, y: Seq<char>, sep: char)
    ensures
        split_on(x + seq![sep] + y, sep) == split_on(x, sep) + split_on(y, sep),
    decreases y.len(),
{
    let s = x + seq![sep] + y;
    if y.len() == 0 {
        assert(s.drop_last() =~= x);
        assert(split_on(y, sep) =~= seq![Seq::<char>::empty()]);
        assert(split_on(s, sep) =~= split_on(x, sep) + split_on(y, sep));
    } else {
        assert(s.drop_last() =~= x + seq![sep] + y.drop_last());
        lemma_split_concat(x, y.drop_last(), sep);
        crate::text::lemma_split_on_len(y.drop_last(), sep);
        assert(split_on(s, sep) =~= split_on(x, sep) + split_on(y, sep));
    }
}

proof fn lemma_split_single(x: Seq<char>, sep: char)
    requires
        !x.contains(sep),
    ensures
        split_on(x, sep) == seq![x],
    decreases x.len(),
{
    if x.len() > 0 {
        assert(!x.drop_last().contains(sep)) by {
            if x.drop_last().contains(sep) {
                let i = choose|i: int| 0 <= i < x.drop_last().len() && x.drop_last()[i] == sep;
                assert(x[i] == sep);
            }
        }
        lemma_split_single(x.drop_last(), sep);
        assert(x[x.len() - 1] != sep);
        assert(x.drop_last().push(x.last()) =~= x);
        assert(split_on(x, sep) =~= seq![x]);
    } else {
        assert(x =~= Seq::<char>::empty());
        assert(split_on(x, sep) =~= seq![x]);
    }
}

proof fn lemma_trim_start_edge(x: Seq<char>)
    ensures
        trim_start(x).len() > 0 ==> !is_space(trim_start(x)[0]),
        trim_start(x) == x.skip(x.len() - trim_start(x).len()),
        trim_start(x).len() <= x.len(),
    decreases x.len(),
{
    if x.len() > 0 && is_space(x[0]) {
        lemma_trim_start_edge(x.drop_first());
        assert(x.drop_first().skip(x.drop_first().len() - trim_start(x).len()) =~= x.skip(
            x.len() - trim_start(x).len(),
        ));
    } else {
        assert(x.skip(0) =~= x);
    }
}

proof fn lemma_trim_end_edge(x: Seq<char>)
    ensures
        trim_end(x).len() > 0 ==> !is_space(trim_end(x).last()),
        trim_end(x) == x.take(trim_end(x).len() as int),
        trim_end(x).len() <= x.len(),
    decreases x.len(),
{
    if x.len() > 0 && is_space(x.last()) {
        lemma_trim_end_edge(x.drop_last());
        assert(x.drop_last().take(trim_end(x).len() as int) =~= x.take(trim_end(x).len() as int));
    } else {
        assert(x.take(x.len() as int) =~= x);
    }
}

/// A trimmed text starts and ends with a character other than white space.
proof fn lemma_trimmed_edges(x: Seq<char>)
    ensures
        trimmed(x).len() > 0 ==> !is_space(trimmed(x)[0]) && !is_space(trimmed(x).last()),
{
    lemma_trim_start_edge(x);
    lemma_trim_end_edge(trim_start(x));
    let y = trim_start(x);
    if trimmed(x).len() > 0 {
        assert(trimmed(x)[0] == y[0]);
    }
}

/// Text that neither starts nor ends with white space is its own trim.
proof fn lemma_trimmed_id(x: Seq<char>)
    requires
        x.len() > 0,
        !is_space(x[0]),
        !is_space(x.last()),
    ensures
        trimmed(x) == x,
{
}

/// Decoding the text of a `data:` URL made of `m`, `c` and `b` gives them back.
proof fn lemma_fields_of_text(m: Seq<char>, c: Seq<char>, b: Seq<u8>)
    requires
        round_trips(m, c),
        base64_decoded(base64_of(b)) == Some(b),
        forall|i: int| 0 <= i < base64_of(b).len() ==> #[trigger] is_base64_char(base64_of(b)[i]),
    ensures
        is_plain_path(data_url_text(m, c, b)),
        data_url_fields(data_url_text(m, c, b)) == (m, effective_charset(c), b),
{
    let t = effective_charset(c);
    let bt = base64_of(b);
    let meta = m + charset_suffix(c) + seq![';'] + base64_word();
    let p = data_url_text(m, c, b);
    assert(p =~= meta + seq![','] + bt);
    lemma_trimmed_edges(c);
    let kt = charset_key() + t;
    // No comma before the payload.
    assert(!meta.contains(',')) by {
        if meta.contains(',') {
            let x = choose|x: int| 0 <= x < meta.len() && meta[x] == ',';
            if x < m.len() {
                assert(meta[x] == m[x]);
            } else if t.len() > 0 && x < m.len() + 1 + 8 + t.len() {
                if x >= m.len() + 9 {
                    assert(meta[x] == t[x - m.len() - 9]);
                }
            }
        }
    }
    lemma_comma_index(meta, bt);
    assert(p.take(meta.len() as int) =~= meta);
    assert(p.skip(meta.len() as int + 1) =~= bt);
    // The metadata items.
    assert(!m.contains(';')) by {
        if m.contains(';') {
            let x = choose|x: int| 0 <= x < m.len() && m[x] == ';';
            assert(m[x] != ';');
        }
    }
    lemma_split_single(m, ';');
    assert(!base64_word().contains(';')) by {
        if base64_word().contains(';') {
            let x = choose|x: int| 0 <= x < 6 && base64_word()[x] == ';';
        }
    }
    lemma_split_single(base64_word(), ';');
    lemma_trimmed_id(base64_word());
    assert(eq_ignore_case(base64_word(), base64_word()));
    let items = split_on(meta, ';');
    assert(params_of(Seq::<Seq<char>>::empty()) == (Seq::<char>::empty(), false));
    if t.len() > 0 {
        assert(meta =~= m + seq![';'] + (kt + seq![';'] + base64_word()));
        assert(!kt.contains(';')) by {
            if kt.contains(';') {
                let x = choose|x: int| 0 <= x < kt.len() && kt[x] == ';';
                if x >= 8 {
                    assert(kt[x] == t[x - 8]);
                }
            }
        }
        lemma_split_single(kt, ';');
        lemma_split_concat(kt, base64_word(), ';');
        lemma_split_concat(m, kt + seq![';'] + base64_word(), ';');
        assert(items =~= seq![m, kt, base64_word()]);
        assert(kt[0] == 'c');
        assert(kt.last() == t.last());
        lemma_trimmed_id(kt);
        assert(!eq_ignore_case(kt, base64_word()));
        assert(kt.take(8) =~= charset_key());
        assert(kt.skip(8) =~= t);
        let rest = items.drop_first();
        let r1 = seq![kt];
        assert(rest.drop_last() =~= r1);
        assert(r1.drop_last() =~= Seq::<Seq<char>>::empty());
        assert(r1.last() == kt);
        assert(params_of(r1) == (t, false));
        assert(rest.last() == base64_word());
        assert(params_of(rest) == (t, true));
    } else {
        assert(meta =~= m + seq![';'] + base64_word());
        lemma_split_concat(m, base64_word(), ';');
        assert(items =~= seq![m, base64_word()]);
        let rest = items.drop_first();
        assert(rest.drop_last() =~= Seq::<Seq<char>>::empty());
        assert(rest.last() == base64_word());
        assert(params_of(rest) == (Seq::<char>::empty(), true));
        assert(t =~= Seq::<char>::empty());
    }
    // The payload has no percent sign.
    assert(!bt.contains('%')) by {
        if bt.contains('%') {
            let x = choose|x: int| 0 <= x < bt.len() && bt[x] == '%';
            assert(is_base64_char(bt[x]));
        }
    }
    // Every character is printable and the path does not start with a slash.
    assert forall|i: int| 0 <= i < p.len() implies #[trigger] is_printable(p[i]) by {
        if i < m.len() {
            assert(p[i] == m[i]);
        } else if i < m.len() + charset_suffix(c).len() {
            if i >= m.len() + 9 {
                assert(p[i] == t[i - m.len() - 9]);
            }
        } else if i >= m.len() + charset_suffix(c).len() + 8 {
            assert(p[i] == bt[i - m.len() - charset_suffix(c).len() - 8]);
            assert(is_base64_char(bt[i - m.len() - charset_suffix(c).len() - 8]));
        }
    }
    if m.len() == 0 {
        assert(p[0] == ';');
    } else {
        assert(p[0] == m[0]);
    }
}

/// A media type that starts and ends with a letter and holds only printable characters other
/// than `,` and `;` is read back unchanged.
proof fn lemma_token_media_type(t: Seq<char>)
    requires
        is_token_text(t),
        t.len() > 0,
        'a' <= t[0] <= 'z',
        'a' <= t.last() <= 'z',
    ensures
        round_trips(t, Seq::empty()),
{
    lemma_trimmed_id(t);
    assert(trimmed(Seq::<char>::empty()) =~= Seq::<char>::empty());
}

/// Every media type that detection yields is read back unchanged from a `data:` URL.
pub proof fn lemma_detected_media_type_round_trips(d: Seq<u8>, u: UrlView)
    ensures
        round_trips(detected_media_type(d, u), Seq::empty()),
{
    reveal_strlit("image/png");
    reveal_strlit("image/jpeg");
    reveal_strlit("image/gif");
    reveal_strlit("image/webp");
    reveal_strlit("image/x-icon");
    reveal_strlit("image/svg+xml");
    let m = detected_media_type(d, u);
    if m.len() == 0 {
        assert(trimmed(Seq::<char>::empty()) =~= Seq::<char>::empty());
        assert(m =~= Seq::<char>::empty());
    } else {
        assert(is_token_text(m));
        lemma_token_media_type(m);
    }
}

/// The charsets `""`, `"utf-8"` and `"US-ASCII"` with the media types `text/plain`, `image/png`
/// or a detected one: a `data:` URL made of them reads back the media type, `utf-8` as itself
/// and the other two as no charset.
pub proof fn lemma_common_types_round_trip(m: Seq<char>, c: Seq<char>, d: Seq<u8>, u: UrlView)
    requires
        m == "text/plain"@ || m == "image/png"@ || m.len() == 0,
        c.len() == 0 || c == "utf-8"@ || c == "US-ASCII"@,
    ensures
        round_trips(effective_media_type(m, d, u), c),
        effective_charset(c) == (if c == "utf-8"@ {
            c
        } else {
            Seq::<char>::empty()
        }),
{
    reveal_strlit("text/plain");
    reveal_strlit("image/png");
    reveal_strlit("utf-8");
    reveal_strlit("US-ASCII");
    let e = effective_media_type(m, d, u);
    if m.len() == 0 {
        lemma_detected_media_type_round_trips(d, u);
    } else {
        assert(is_token_text(m));
        lemma_token_media_type(m);
    }
    if c.len() == 0 {
        assert(trimmed(c) =~= c);
        assert(c != "utf-8"@);
    } else {
        lemma_trimmed_id(c);
        if c == "US-ASCII"@ {
            assert(c =~= us_ascii());
            assert(eq_ignore_case(c, us_ascii()));
            assert(c != "utf-8"@);
        } else {
            assert(!eq_ignore_case(c, us_ascii()));
        }
        assert(is_token_text(c));
    }
}

/// A `data:` URL holding `data` as base64, with the media type (detected from the payload and
/// `final_asset_url` when `media_type` is empty) and the charset (left out when it is empty or
/// `US-ASCII`).
///
/// Whenever the media type and charset can be read back unchanged, decoding the result gives the
/// media type, the recorded charset and exactly the payload.
pub fn create_data_url(media_type: &str, charset: &str, data: &[u8], final_asset_url: &Url) -> (r:
    Url)
    ensures
        r@ == (UrlView {
            scheme: seq!['d', 'a', 't', 'a'],
            has_authority: false,
            username: Seq::empty(),
            password: None,
            host: None,
            port: None,
            path: opaque_path(
                data_url_text(
                    effective_media_type(media_type@, data@, final_asset_url@),
                    charset@,
                    data@,
                ),
            ),
            query: None,
            fragment: None,
        }),
        round_trips(effective_media_type(media_type@, data@, final_asset_url@), charset@)
            ==> data_url_fields(r@.path) == (
            effective_media_type(media_type@, data@, final_asset_url@),
            effective_charset(charset@),
            data@,
        ),
{
    let media: String = if media_type.unicode_len() == 0 {
        detect_media_type(data, final_asset_url)
    } else {
        String::from_str(media_type)
    };
    let ghost m = media@;
    let mut out: Vec<char> = chars_of(media.as_str());
    let t = trim_chars(chars_of(charset).as_slice());
    let us = chars_of("US-ASCII");
    proof {
        reveal_strlit("US-ASCII");
        assert(us@ =~= us_ascii());
    }
    if t.len() > 0 && !slice_eq_ignore_case(t.as_slice(), us.as_slice()) {
        out.push(';');
        out.push('c');
        out.push('h');
        out.push('a');
        out.push('r');
        out.push('s');
        out.push('e');
        out.push('t');
        out.push('=');
        out.extend_from_slice(t.as_slice());
    }
    assert(out@ =~= m + charset_suffix(charset@));
    out.push(';');
    out.push('b');
    out.push('a');
    out.push('s');
    out.push('e');
    out.push('6');
    out.push('4');
    out.push(',');
    let encoded = base64_encode(data);
    out.extend_from_slice(chars_of(encoded.as_str()).as_slice());
    assert(out@ =~= data_url_text(m, charset@, data@));
    let text = string_of(out.as_slice());
    let path = data_url_path(text.as_str());
    proof {
        if round_trips(m, charset@) {
            lemma_fields_of_text(m, charset@, data@);
        }
        reveal_strlit("data");
    }
    let r = Url {
        scheme: String::from_str("data"),
        has_authority: false,
        username: String::new(),
        password: None,
        host: None,
        port: None,
        path,
        query: None,
        fragment: None,
    };
    assert(r.scheme@ =~= seq!['d', 'a', 't', 'a']);
    r
}

} // verus!
