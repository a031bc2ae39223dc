//! The outside functions that the library calls, each with what is relied upon of it.

use base64::Engine;
use vstd::prelude::*;
use vstd::utf8::encode_utf8;

use crate::text;

verus! {

// ---------------------------------------------------------------------------
// Percent encoding
// ---------------------------------------------------------------------------

/// A hexadecimal digit with a capital letter.
pub open spec fn hex_upper(d: int) -> char {
    if d < 10 {
        ((48 + d) as u8) as char
    } else {
        ((55 + d) as u8) as char
    }
}

/// Whether a byte stands for itself in a URL.
pub open spec fn is_unreserved(b: u8) -> bool {
    0x30 <= b <= 0x39 || 0x41 <= b <= 0x5a || 0x61 <= b <= 0x7a || b == 0x2d || b == 0x2e || b
        == 0x5f || b == 0x7e
}

/// One byte in a URL.
pub open spec fn percent_byte(b: u8) -> Seq<char> {
    if is_unreserved(b) {
        seq![b as char]
    } else {
        seq!['%', hex_upper(b as int / 16), hex_upper(b as int % 16)]
    }
}

/// Bytes in a URL.
pub open spec fn percent_bytes(bytes: Seq<u8>) -> Seq<char>
    decreases bytes.len(),
{
    if bytes.len() == 0 {
        Seq::empty()
    } else {
        percent_bytes(bytes.drop_last()) + percent_byte(bytes.last())
    }
}

/// A text in a URL.
pub open spec fn percent(s: Seq<char>) -> Seq<char> {
    percent_bytes(encode_utf8(s))
}

/// `urlencoding::encode`: letters, digits, `-`, `.`, `_` and `~` as they are, every other byte
/// of the UTF-8 encoding as `%` and two hexadecimal digits with capital letters.
#[verifier::external_body]
pub(crate) fn url_encode(s: &str) -> (r: String)
    ensures
        r@ == percent(s@),
{
    urlencoding::encode(s).into_owned()
}

// ---------------------------------------------------------------------------
// JSON strings
// ---------------------------------------------------------------------------

/// A hexadecimal digit with a small letter.
pub open spec fn hex_lower(d: int) -> char {
    if d < 10 {
        ((48 + d) as u8) as char
    } else {
        ((87 + d) as u8) as char
    }
}

/// One character in a JSON string.
pub open spec fn json_char(c: char) -> Seq<char> {
    let n = c as u32;
    if c == '"' {
        seq!['\\', '"']
    } else if c == '\\' {
        seq!['\\', '\\']
    } else if n == 8 {
        seq!['\\', 'b']
    } else if n == 9 {
        seq!['\\', 't']
    } else if n == 10 {
        seq!['\\', 'n']
    } else if n == 12 {
        seq!['\\', 'f']
    } else if n == 13 {
        seq!['\\', 'r']
    } else if n < 32 {
        seq!['\\', 'u', '0', '0', hex_lower(n as int / 16), hex_lower(n as int % 16)]
    } else {
        seq![c]
    }
}

/// The inside of a JSON string.
pub open spec fn json_chars(s: Seq<char>) -> Seq<char>
    decreases s.len(),
{
    if s.len() == 0 {
        Seq::empty()
    } else {
        json_chars(s.drop_last()) + json_char(s.last())
    }
}

/// A text as a JSON string.
pub open spec fn json_string(s: Seq<char>) -> Seq<char> {
    seq!['"'] + json_chars(s) + seq!['"']
}

/// `serde_json::to_string` of a string: the text between quotes, with quotes, backslashes and
/// control characters below U+0020 escaped and every other character as it is.
#[verifier::external_body]
pub(crate) fn to_json_string(s: &str) -> (r: String)
    ensures
        r@ == json_string(s@),
{
    serde_json::to_string(s).expect("a string is always JSON")
}

// ---------------------------------------------------------------------------
// UUIDs
// ---------------------------------------------------------------------------

/// The hexadecimal digits in both cases.
pub open spec fn is_hex(c: char) -> bool {
    '0' <= c <= '9' || 'a' <= c <= 'f' || 'A' <= c <= 'F'
}

/// Thirty-two hexadecimal digits in five groups with hyphens between them.
pub open spec fn is_hyphenated(s: Seq<char>) -> bool {
    s.len() == 36 && forall|i: int|
        0 <= i < 36 ==> if i == 8 || i == 13 || i == 18 || i == 23 {
            #[trigger] s[i] == '-'
        } else {
            is_hex(s[i])
        }
}

/// The spellings of a UUID: digits alone, with hyphens, with hyphens in braces or behind
/// `urn:uuid:`.
pub open spec fn is_uuid(s: Seq<char>) -> bool {
    ||| s.len() == 32 && forall|i: int| 0 <= i < 32 ==> is_hex(#[trigger] s[i])
    ||| is_hyphenated(s)
    ||| s.len() == 38 && s[0] == '{' && s[37] == '}' && is_hyphenated(s.subrange(1, 37))
    ||| s.len() == 45 && text::lower_ascii(s.take(9)) == "urn:uuid:"@ && is_hyphenated(s.skip(9))
}

/// `uuid::Uuid::parse_str`: it accepts exactly the spellings of [`is_uuid`]; the version that a
/// UUID names is not looked at.
#[verifier::external_body]
pub(crate) fn parses_as_uuid(s: &str) -> (r: bool)
    ensures
        r == is_uuid(s@),
{
    uuid::Uuid::parse_str(s).is_ok()
}

// ---------------------------------------------------------------------------
// Base64
// ---------------------------------------------------------------------------

/// The character for six bits in the URL-safe alphabet.
pub open spec fn base64_char(n: int) -> char {
    if n < 26 {
        ((65 + n) as u8) as char
    } else if n < 52 {
        ((71 + n) as u8) as char
    } else if n < 62 {
        ((n - 4) as u8) as char
    } else if n == 62 {
        '-'
    } else {
        '_'
    }
}

/// Bytes in URL-safe Base64 without padding: four characters for three bytes, and two or three
/// for one or two that are left, whose last character is filled up with zero bits.
pub open spec fn base64_text(b: Seq<u8>) -> Seq<char>
    decreases b.len(),
{
    if b.len() == 0 {
        Seq::empty()
    } else if b.len() == 1 {
        seq![base64_char(b[0] as int / 4), base64_char(b[0] as int % 4 * 16)]
    } else if b.len() == 2 {
        seq![
            base64_char(b[0] as int / 4),
            base64_char(b[0] as int % 4 * 16 + b[1] as int / 16),
            base64_char(b[1] as int % 16 * 4),
        ]
    } else {
        seq![
            base64_char(b[0] as int / 4),
            base64_char(b[0] as int % 4 * 16 + b[1] as int / 16),
            base64_char(b[1] as int % 16 * 4 + b[2] as int / 64),
            base64_char(b[2] as int % 64),
        ] + base64_text(b.skip(3))
    }
}

/// The bytes whose Base64 a text is, if it is the Base64 of any.
pub open spec fn base64_bytes(s: Seq<char>) -> Option<Seq<u8>> {
    if exists|b: Seq<u8>| base64_text(b) == s {
        Some(choose|b: Seq<u8>| base64_text(b) == s)
    } else {
        None
    }
}

proof fn lemma_base64_char(m: int, n: int)
    requires
        0 <= m < 64,
        0 <= n < 64,
        base64_char(m) == base64_char(n),
    ensures
        m == n,
{
}

/// Different bytes have different Base64.
pub proof fn law_base64_is_injective(a: Seq<u8>, b: Seq<u8>)
    requires
        base64_text(a) == base64_text(b),
    ensures
        a == b,
    decreases a.len(),
{
    let s = base64_text(a);
    let t = base64_text(b);
    assert(a.len() > 3 ==> base64_text(a.skip(3)).len() >= 2);
    assert(b.len() > 3 ==> base64_text(b.skip(3)).len() >= 2);
    if a.len() >= 3 && b.len() >= 3 {
        assert(s.skip(4) =~= base64_text(a.skip(3)));
        assert(t.skip(4) =~= base64_text(b.skip(3)));
        law_base64_is_injective(a.skip(3), b.skip(3));
        assert(s[0] == t[0] && s[1] == t[1] && s[2] == t[2] && s[3] == t[3]);
        lemma_base64_char(a[0] as int / 4, b[0] as int / 4);
        lemma_base64_char(
            a[0] as int % 4 * 16 + a[1] as int / 16,
            b[0] as int % 4 * 16 + b[1] as int / 16,
        );
        lemma_base64_char(
            a[1] as int % 16 * 4 + a[2] as int / 64,
            b[1] as int % 16 * 4 + b[2] as int / 64,
        );
        lemma_base64_char(a[2] as int % 64, b[2] as int % 64);
        assert(a =~= a.take(3) + a.skip(3));
        assert(b =~= b.take(3) + b.skip(3));
        assert(a.take(3) =~= b.take(3));
    } else if a.len() == 2 && b.len() == 2 {
        assert(s[0] == t[0] && s[1] == t[1] && s[2] == t[2]);
        lemma_base64_char(a[0] as int / 4, b[0] as int / 4);
        lemma_base64_char(
            a[0] as int % 4 * 16 + a[1] as int / 16,
            b[0] as int % 4 * 16 + b[1] as int / 16,
        );
        lemma_base64_char(a[1] as int % 16 * 4, b[1] as int % 16 * 4);
        assert(a =~= b);
    } else if a.len() == 1 && b.len() == 1 {
        assert(s[0] == t[0] && s[1] == t[1]);
        lemma_base64_char(a[0] as int / 4, b[0] as int / 4);
        lemma_base64_char(a[0] as int % 4 * 16, b[0] as int % 4 * 16);
        assert(a =~= b);
    } else {
        assert(a.len() == 0 && b.len() == 0) by {
            assert(s.len() == t.len());
        }
        assert(a =~= b);
    }
}

/// Reading the Base64 of bytes gives the bytes back.
pub proof fn law_base64_round_trip(b: Seq<u8>)
    ensures
        base64_bytes(base64_text(b)) == Some(b),
{
    let s = base64_text(b);
    assert(base64_text(b) == s);
    let c = choose|c: Seq<u8>| base64_text(c) == s;
    law_base64_is_injective(c, b);
}

/// `base64::Engine::encode` of `URL_SAFE_NO_PAD`: the Base64 text of the bytes in the URL-safe
/// alphabet without padding. The length is bounded because the function panics where the length
/// of its result overflows.
#[verifier::external_body]
pub(crate) fn base64_encode(bytes: &Vec<u8>) -> (r: String)
    requires
        bytes@.len() <= usize::MAX / 8,
    ensures
        r@ == base64_text(bytes@),
{
    base64::engine::general_purpose::URL_SAFE_NO_PAD.encode(bytes)
}

/// `base64::Engine::decode` of `URL_SAFE_NO_PAD`: the bytes whose Base64 the text is. Other
/// characters, padding, a single character that is left over, and bits behind the last byte
/// that are not zero are refused, so that nothing but the Base64 of some bytes is read.
#[verifier::external_body]
pub(crate) fn base64_decode(s: &str) -> (r: Option<Vec<u8>>)
    ensures
        match r {
            Some(b) => base64_text(b@) == s@,
            None => forall|b: Seq<u8>| base64_text(b) != s@,
        },
{
    base64::engine::general_purpose::URL_SAFE_NO_PAD.decode(s).ok()
}

// ---------------------------------------------------------------------------
// URLs
// ---------------------------------------------------------------------------

/// What the library reads of a URL.
pub struct UrlParts {
    pub scheme: String,
    pub host: Option<String>,
    /// What stands in front of the path.
    pub before_path: String,
    pub path: String,
    /// The segments of the path, empty ones included; none where the path has no slash.
    pub segments: Option<Vec<String>>,
    /// The query with its `?`, empty where there is none.
    pub query: String,
    /// The fragment with its `#`, empty where there is none.
    pub fragment: String,
}

/// The mathematical value of a [`UrlParts`].
pub struct UrlModel {
    pub scheme: Seq<char>,
    pub host: Option<Seq<char>>,
    pub before_path: Seq<char>,
    pub path: Seq<char>,
    pub segments: Option<Seq<Seq<char>>>,
    pub query: Seq<char>,
    pub fragment: Seq<char>,
}

/// Pairs of texts.
pub open spec fn pair_views(v: Seq<(String, String)>) -> Seq<(Seq<char>, Seq<char>)> {
    Seq::new(v.len(), |i: int| (v[i].0@, v[i].1@))
}

impl View for UrlParts {
    type V = UrlModel;

    open spec fn view(&self) -> UrlModel {
        UrlModel {
            scheme: self.scheme@,
            host: text::opt_view(self.host),
            before_path: self.before_path@,
            path: self.path@,
            segments: match self.segments {
                Some(v) => Some(text::views(v@)),
                None => None,
            },
            query: self.query@,
            fragment: self.fragment@,
        }
    }
}

/// The segments of a path: what stands between its slashes.
pub open spec fn path_pieces(path: Seq<char>) -> Option<Seq<Seq<char>>> {
    match text::strip_prefix(path, "/"@) {
        Some(t) => Some(text::split(t, '/')),
        None => None,
    }
}

/// How many bytes a byte takes in the pairs of a query: letters, digits, `*`, `-`, `.`, `_` and
/// the blank take one, every other three.
pub open spec fn query_byte(b: u8) -> nat {
    if 0x30 <= b <= 0x39 || 0x41 <= b <= 0x5a || 0x61 <= b <= 0x7a || b == 0x2a || b == 0x2d || b
        == 0x2e || b == 0x5f || b == 0x20 {
        1
    } else {
        3
    }
}

/// How many bytes some bytes take in the pairs of a query.
pub open spec fn query_bytes(bytes: Seq<u8>) -> nat
    decreases bytes.len(),
{
    if bytes.len() == 0 {
        0
    } else {
        query_bytes(bytes.drop_last()) + query_byte(bytes.last())
    }
}

/// How many bytes pairs take as a query: `=` within each and `&` between them.
pub open spec fn query_size(pairs: Seq<(Seq<char>, Seq<char>)>) -> nat
    decreases pairs.len(),
{
    if pairs.len() == 0 {
        0
    } else {
        query_size(pairs.drop_last()) + (if pairs.len() > 1 {
            1nat
        } else {
            0nat
        }) + query_bytes(encode_utf8(pairs.last().0)) + 1 + query_bytes(
            encode_utf8(pairs.last().1),
        )
    }
}

/// How many bytes stand in front of the end of the path of a URL.
pub open spec fn path_end(u: UrlModel) -> nat {
    encode_utf8(u.before_path).len() + encode_utf8(u.path).len()
}

/// Whether a URL can be given a shorter path, and pairs in place of its query: the place at
/// which its path ends fits in 32 bits, and so does the place at which its fragment starts,
/// before and after, with one to spare before.
pub open spec fn rewritable(
    u: UrlModel,
    path: Seq<char>,
    pairs: Seq<(Seq<char>, Seq<char>)>,
) -> bool {
    &&& path_end(u) <= u32::MAX
    &&& u.fragment.len() > 0 ==> path_end(u) + encode_utf8(u.query).len() < u32::MAX
    &&& u.fragment.len() > 0 && pairs.len() > 0 ==> encode_utf8(u.before_path).len() + encode_utf8(
        path,
    ).len() + 1 + query_size(pairs) <= u32::MAX
}

/// Whether the pairs of a query can be read: it starts within 32 bits, with one to spare.
pub open spec fn pairs_readable(u: UrlModel) -> bool {
    u.query.len() > 0 ==> path_end(u) < u32::MAX
}

/// Whether the pairs of a query can be read.
pub fn can_read_pairs(u: &UrlParts) -> (r: bool)
    ensures
        r == pairs_readable(u@),
{
    u.query.as_str().is_empty() || (u.before_path.as_str().as_bytes_vec().len() as u128)
        + (u.path.as_str().as_bytes_vec().len() as u128) < u32::MAX as u128
}

/// The first place from `i` on at which neither a slash nor a tab nor the end of a line stands.
pub open spec fn behind_slashes(s: Seq<char>, i: int) -> int
    decreases s.len() - i,
{
    if 0 <= i < s.len() && (s[i] == '/' || s[i] == '\\' || s[i] == '\t' || s[i] == '\n' || s[i]
        == '\r') {
        behind_slashes(s, i + 1)
    } else {
        i
    }
}

/// The first place from `i` on at which a path, a query or a fragment starts, or the end.
pub open spec fn authority_end(s: Seq<char>, i: int) -> int
    decreases s.len() - i,
{
    if 0 <= i < s.len() && s[i] != '/' && s[i] != '?' && s[i] != '#' {
        authority_end(s, i + 1)
    } else {
        i
    }
}

/// Whether a text is one that can be parsed as a URL: the parser counts the characters between
/// the scheme and the path in 31 bits, and keeps the place behind the scheme in 32.
pub open spec fn parseable(s: Seq<char>) -> bool {
    match text::find(s, seq![':'], 0) {
        Some(k) => k + 3 <= u32::MAX && authority_end(s, behind_slashes(s, k + 1)) - k
            <= i32::MAX,
        None => true,
    }
}

/// Whether a text is one that can be parsed as a URL.
pub fn can_parse(input: &str) -> (r: bool)
    ensures
        r == parseable(input@),
{
    let s: Vec<char> = text::chars(input);
    let k: usize = match text::find_char(&s, ':', 0) {
        Some(k) => k,
        None => {
            return true;
        },
    };
    let mut i: usize = k + 1;
    while i < s.len() && (s[i] == '/' || s[i] == '\\' || s[i] == '\t' || s[i] == '\n' || s[i] == '\r')
        invariant
            k < i <= s.len(),
            behind_slashes(s@, k + 1) == behind_slashes(s@, i as int),
        decreases s.len() - i,
    {
        i = i + 1;
    }
    let ghost start = i as int;
    while i < s.len() && s[i] != '/' && s[i] != '?' && s[i] != '#'
        invariant
            k < i <= s.len(),
            authority_end(s@, start) == authority_end(s@, i as int),
        decreases s.len() - i,
    {
        i = i + 1;
    }
    (k as u128) + 3 <= u32::MAX as u128 && (i - k) as u128 <= i32::MAX as u128
}

/// Whether a path is the beginning of the path of a URL, and not empty unless that is.
pub open spec fn begins_path(u: UrlModel, path: Seq<char>) -> bool {
    text::has_prefix(u.path, path) && (path.len() > 0 || u.path.len() == 0)
}

proof fn lemma_query_size_grows(pairs: Seq<(Seq<char>, Seq<char>)>, n: int)
    requires
        0 <= n <= pairs.len(),
    ensures
        query_size(pairs.take(n)) <= query_size(pairs),
    decreases pairs.len() - n,
{
    if n < pairs.len() {
        lemma_query_size_grows(pairs, n + 1);
        assert(pairs.take(n + 1).drop_last() =~= pairs.take(n));
    } else {
        assert(pairs.take(n) =~= pairs);
    }
}

fn query_length(s: &str) -> (r: u128)
    ensures
        r == query_bytes(encode_utf8(s@)),
        r <= 3 * usize::MAX,
{
    let bytes: Vec<u8> = s.as_bytes_vec();
    let mut n: u128 = 0;
    let mut i: usize = 0;
    assert(bytes@.take(0) =~= Seq::empty());
    while i < bytes.len()
        invariant
            i <= bytes.len(),
            n == query_bytes(bytes@.take(i as int)),
            n <= 3 * i,
        decreases bytes.len() - i,
    {
        let b: u8 = bytes[i];
        assert(bytes@.take(i + 1).drop_last() =~= bytes@.take(i as int));
        let one: bool = (0x30 <= b && b <= 0x39) || (0x41 <= b && b <= 0x5a) || (0x61 <= b && b
            <= 0x7a) || b == 0x2a || b == 0x2d || b == 0x2e || b == 0x5f || b == 0x20;
        n = n + if one {
            1u128
        } else {
            3u128
        };
        i = i + 1;
    }
    assert(bytes@.take(bytes@.len() as int) =~= bytes@);
    n
}

/// Whether a URL can be given a shorter path, and pairs in place of its query.
pub fn can_rewrite(u: &UrlParts, path: &str, pairs: &Vec<(String, String)>) -> (r: bool)
    ensures
        r == rewritable(u@, path@, pair_views(pairs@)),
{
    let limit: u128 = u32::MAX as u128;
    let before: u128 = u.before_path.as_str().as_bytes_vec().len() as u128;
    let end: u128 = before + u.path.as_str().as_bytes_vec().len() as u128;
    if end > limit {
        return false;
    }
    let ghost pv = pair_views(pairs@);
    assert(pv.len() == pairs@.len());
    if u.fragment.as_str().is_empty() {
        return true;
    }
    if end + u.query.as_str().as_bytes_vec().len() as u128 >= limit {
        return false;
    }
    if pairs.len() == 0 {
        return true;
    }
    let mut n: u128 = before + path.as_bytes_vec().len() as u128 + 1;
    let ghost start = n;
    if n > limit {
        return false;
    }
    let mut i: usize = 0;
    assert(pv.take(0) =~= Seq::empty());
    while i < pairs.len()
        invariant
            i <= pairs.len(),
            limit == u32::MAX,
            pv == pair_views(pairs@),
            pv.len() == pairs@.len(),
            start == encode_utf8(u@.before_path).len() + encode_utf8(path@).len() + 1,
            u@.fragment.len() > 0,
            pairs@.len() > 0,
            path_end(u@) + encode_utf8(u@.query).len() < limit,
            n == start + query_size(pv.take(i as int)),
            n <= limit,
        decreases pairs.len() - i,
    {
        assert(pv.take(i + 1).drop_last() =~= pv.take(i as int));
        assert(pv.take(i + 1).last() == (pairs@[i as int].0@, pairs@[i as int].1@));
        let amp: u128 = if i > 0 {
            1
        } else {
            0
        };
        n = n + amp + query_length(pairs[i].0.as_str()) + 1 + query_length(pairs[i].1.as_str());
        i = i + 1;
        proof {
            lemma_query_size_grows(pv, i as int);
        }
        if n > limit {
            return false;
        }
    }
    assert(pv.take(pv.len() as int) =~= pv);
    true
}

/// What parsing a URL gives: its scheme, its host, what stands in front of the path, the path,
/// its segments, the query and the fragment.
pub uninterp spec fn url_parts(input: Seq<char>) -> Option<UrlModel>;

/// The decoded pairs of the query of a URL.
pub uninterp spec fn url_pairs(input: Seq<char>) -> Option<Seq<(Seq<char>, Seq<char>)>>;

/// The text of a URL with another path and without a query.
pub uninterp spec fn url_at_path(input: Seq<char>, path: Seq<char>) -> Option<Seq<char>>;

/// The text of a URL with another path, and with pairs in place of its query.
pub uninterp spec fn url_at_path_with_pairs(
    input: Seq<char>,
    path: Seq<char>,
    pairs: Seq<(Seq<char>, Seq<char>)>,
) -> Option<Seq<char>>;

/// `url::Url::parse`, with what `scheme`, `host_str`, `path` and `path_segments` say of the
/// result, and what stands in front of the path, between the path and the fragment, and from
/// there on; none where the text is no absolute URL. The segments are what stands between the
/// slashes of the path, and behind a host the path is empty or starts with a slash. Beyond
/// [`parseable`] texts the parser's counters overflow.
#[verifier::external_body]
pub(crate) fn parse_url(input: &str) -> (r: Option<UrlParts>)
    requires
        parseable(input@),
    ensures
        match r {
            Some(p) => {
                &&& url_parts(input@) == Some(p@)
                &&& p@.segments == path_pieces(p@.path)
                &&& p@.host is Some ==> p@.path.len() == 0 || p@.path[0] == '/'
            },
            None => url_parts(input@) is None,
        },
{
    let u = url::Url::parse(input).ok()?;
    Some(UrlParts {
        scheme: u.scheme().to_owned(),
        host: u.host_str().map(str::to_owned),
        before_path: u[..url::Position::BeforePath].to_owned(),
        path: u.path().to_owned(),
        segments: u.path_segments().map(|s| s.map(str::to_owned).collect()),
        query: u[url::Position::AfterPath..url::Position::AfterQuery].to_owned(),
        fragment: u[url::Position::AfterQuery..].to_owned(),
    })
}

/// `url::Url::query_pairs`: the decoded pairs of the query of a URL; none where the text is no
/// URL. The place behind the `?` fits in 32 bits, beyond which the function overflows.
#[verifier::external_body]
pub(crate) fn read_url_pairs(input: &str) -> (r: Option<Vec<(String, String)>>)
    requires
        parseable(input@),
        match url_parts(input@) {
            Some(u) => pairs_readable(u),
            None => true,
        },
    ensures
        match r {
            Some(v) => url_pairs(input@) == Some(pair_views(v@)),
            None => url_pairs(input@) is None,
        },
        r is Some <==> url_parts(input@) is Some,
{
    let u = url::Url::parse(input).ok()?;
    Some(u.query_pairs().into_owned().collect())
}

/// `url::Url::set_query(None)` and `set_path`: the URL with another path and without a query;
/// none where the text is no URL. The new path is the beginning of the old one, so that nothing
/// in it is encoded anew; the path ends and the fragment starts within 32 bits, beyond which the
/// functions panic or overflow.
#[verifier::external_body]
pub(crate) fn set_url_path(input: &str, path: &str) -> (r: Option<String>)
    requires
        parseable(input@),
        match url_parts(input@) {
            Some(u) => begins_path(u, path@) && rewritable(u, path@, Seq::empty()),
            None => true,
        },
    ensures
        text::opt_view(r) == url_at_path(input@, path@),
        r is Some <==> url_parts(input@) is Some,
{
    let mut u = url::Url::parse(input).ok()?;
    u.set_query(None);
    u.set_path(path);
    Some(u.to_string())
}

/// `url::Url::set_query(None)`, `set_path`, and `query_pairs_mut` with `extend_pairs`: the URL
/// with another path, and with pairs, of which there is at least one, in place of its query; none
/// where the text is no URL. The new path is the beginning of the old one, so that nothing in it
/// is encoded anew; the path ends and the fragment starts within 32 bits, before and behind the
/// pairs, beyond which the functions panic or overflow.
#[verifier::external_body]
pub(crate) fn set_url_path_and_pairs(input: &str, path: &str, pairs: &Vec<(String, String)>) -> (r:
    Option<String>)
    requires
        parseable(input@),
        pairs@.len() > 0,
        match url_parts(input@) {
            Some(u) => begins_path(u, path@) && rewritable(u, path@, pair_views(pairs@)),
            None => true,
        },
    ensures
        text::opt_view(r) == url_at_path_with_pairs(input@, path@, pair_views(pairs@)),
        r is Some <==> url_parts(input@) is Some,
{
    let mut u = url::Url::parse(input).ok()?;
    u.set_query(None);
    u.set_path(path);
    u.query_pairs_mut().extend_pairs(pairs.iter());
    Some(u.to_string())
}

/// What a text consists of that is a URL and can be parsed as one.
pub open spec fn parsed(input: Seq<char>) -> Option<UrlModel> {
    if parseable(input) {
        url_parts(input)
    } else {
        None
    }
}

/// What a text consists of that is a URL and can be parsed as one.
pub(crate) fn read_url(input: &str) -> (r: Option<UrlParts>)
    ensures
        match r {
            Some(p) => {
                &&& parseable(input@)
                &&& parsed(input@) == Some(p@)
                &&& p@.segments == path_pieces(p@.path)
                &&& p@.host is Some ==> p@.path.len() == 0 || p@.path[0] == '/'
            },
            None => parsed(input@) is None,
        },
{
    if can_parse(input) {
        parse_url(input)
    } else {
        None
    }
}

} // verus!
