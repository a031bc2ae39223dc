//! Garden items: how they are shown and linked, the depth of a ranking, and who may see what.

use vstd::prelude::*;
use vstd::utf8::{decode_utf8, encode_utf8, encode_utf8_decode_utf8, encode_utf8_valid_utf8, valid_utf8};

use crate::nav::{self, ScopeId, ThreadNav};
use crate::outside;
use crate::paths::{self, ItemId};
use crate::state::{self, ContentState, ReducerState};
use crate::text;
use crate::unicode;

verus! {

/// The depth that takes in every descendant (`?depth=all`).
pub const GARDEN_DEPTH_ALL: usize = usize::MAX;

// ---------------------------------------------------------------------------
// Items
// ---------------------------------------------------------------------------

/// How a written item is shown: by its last segment alone in the ontology.
pub open spec fn shown_path(item: Seq<char>) -> Seq<char> {
    match paths::item_key(item) {
        Some(k) => paths::display(paths::leaf_key(k)),
        None => paths::canonical_item(item),
    }
}

/// How a written item is shown.
pub fn item_display_path(item: &str) -> (r: String)
    ensures
        r@ == shown_path(item@),
{
    match ItemId::parse(item) {
        Some(c) => c.ontology_leaf().display_path(),
        None => paths::canonicalize_item(item),
    }
}

/// The URL of a written item in a scope.
pub fn item_href(item: &str, nav: &ThreadNav) -> (r: String)
    ensures
        r@ == nav::written_item_href(nav@, item@),
{
    nav.garden_item_url(item)
}

/// The label of a written item.
pub fn item_code_label(item: &str) -> (r: String)
    ensures
        r@ == shown_path(item@),
{
    item_display_path(item)
}

/// Where a reader goes behind the login: the path asked for, if it is one of this site, else
/// the home page.
pub open spec fn safe_next(next: Seq<char>) -> Seq<char> {
    let t = text::trim(next);
    if text::has_prefix(t, "/"@) && !text::has_prefix(t, "//"@) {
        t
    } else {
        "/"@
    }
}

/// The path of this site that a text names, the root where it names none.
pub(crate) fn path_on_this_site(next: &str) -> (r: String)
    ensures
        r@ == safe_next(next@),
{
    let t: Vec<char> = text::trimmed(&text::chars(next));
    if text::starts_with(&t, "/") && !text::starts_with(&t, "//") {
        text::string(&t)
    } else {
        "/".to_owned()
    }
}

/// The URL of the login page that leads on to a path.
pub open spec fn login_href(next: Seq<char>) -> Seq<char> {
    "/login?next="@ + outside::percent(safe_next(next))
}

/// The URL of the login page that leads on to a path of this site.
pub fn login_href_with_next(next: &str) -> (r: String)
    ensures
        r@ == login_href(next@),
{
    let path: String = path_on_this_site(next);
    let q: String = outside::url_encode(path.as_str());
    text::cat("/login?next=", q.as_str())
}

/// The login never leads to another site: the path behind it starts with one slash, not two.
pub proof fn law_login_leads_to_this_site(next: Seq<char>)
    ensures
        safe_next(next).len() > 0,
        safe_next(next)[0] == '/',
        safe_next(next).len() > 1 ==> safe_next(next)[1] != '/',
{
    reveal_strlit("/");
    reveal_strlit("//");
    let t = text::trim(next);
    if text::has_prefix(t, "/"@) {
        assert(t.subrange(0, 1)[0] == t[0]);
        if t.len() > 1 && t[1] == '/' {
            assert(t.subrange(0, 2) =~= "//"@);
        }
    }
}

// ---------------------------------------------------------------------------
// Percent signs
// ---------------------------------------------------------------------------

/// The value of a hexadecimal digit.
pub open spec fn hex_value(b: u8) -> Option<u8> {
    if 48 <= b <= 57 {
        Some((b - 48) as u8)
    } else if 97 <= b <= 102 {
        Some((b - 87) as u8)
    } else if 65 <= b <= 70 {
        Some((b - 55) as u8)
    } else {
        None
    }
}

/// The value of a hexadecimal digit.
pub fn from_hex(b: u8) -> (r: Option<u8>)
    ensures
        r == hex_value(b),
        r matches Some(v) ==> v < 16,
{
    if 48 <= b && b <= 57 {
        Some(b - 48)
    } else if 97 <= b && b <= 102 {
        Some(b - 87)
    } else if 65 <= b && b <= 70 {
        Some(b - 55)
    } else {
        None
    }
}

/// Whether an escape stands at place `i`: a percent sign and two hexadecimal digits.
pub open spec fn is_escape(b: Seq<u8>, i: int) -> bool {
    b[i] == 37 && i + 2 < b.len() && hex_value(b[i + 1]) is Some && hex_value(b[i + 2]) is Some
}

/// The bytes from place `i` on with each escape replaced by the byte that it stands for.
pub open spec fn unescaped(b: Seq<u8>, i: int) -> Seq<u8>
    decreases b.len() - i,
{
    if i < 0 || i >= b.len() {
        Seq::empty()
    } else if is_escape(b, i) {
        seq![(hex_value(b[i + 1]).unwrap() * 16 + hex_value(b[i + 2]).unwrap()) as u8] + unescaped(
            b,
            i + 3,
        )
    } else {
        seq![b[i]] + unescaped(b, i + 1)
    }
}

/// A text with its escapes replaced, or the text itself where that is no text.
pub open spec fn percent_decoded(s: Seq<char>) -> Seq<char> {
    let b = unescaped(encode_utf8(s), 0);
    if valid_utf8(b) {
        decode_utf8(b)
    } else {
        s
    }
}

/// Replaces the percent escapes of a text.
pub fn percent_decode_basic(s: &str) -> (r: String)
    ensures
        r@ == percent_decoded(s@),
{
    let bytes: Vec<u8> = s.as_bytes_vec();
    let ghost all = unescaped(bytes@, 0);
    let mut out: Vec<u8> = Vec::new();
    let mut i: usize = 0;
    assert(out@ + unescaped(bytes@, 0) =~= all);
    while i < bytes.len()
        invariant
            i <= bytes.len(),
            all == unescaped(bytes@, 0),
            out@ + unescaped(bytes@, i as int) == all,
        decreases bytes.len() - i,
    {
        let ghost before = out@;
        let mut step: usize = 1;
        let mut byte: u8 = bytes[i];
        if bytes[i] == 37 && bytes.len() - i > 2 {
            match (from_hex(bytes[i + 1]), from_hex(bytes[i + 2])) {
                (Some(hi), Some(lo)) => {
                    byte = hi * 16 + lo;
                    step = 3;
                },
                _ => {},
            }
        }
        assert(unescaped(bytes@, i as int) == seq![byte] + unescaped(bytes@, i + step));
        out.push(byte);
        assert(out@ + unescaped(bytes@, i + step) =~= before + (seq![byte] + unescaped(
            bytes@,
            i + step,
        )));
        i = i + step;
    }
    assert(out@ + unescaped(bytes@, i as int) =~= out@);
    match unicode::from_utf8(out) {
        Some(t) => {
            proof {
                encode_utf8_decode_utf8(t@);
                encode_utf8_valid_utf8(t@);
            }
            t
        },
        None => s.to_owned(),
    }
}

/// Bytes without a percent sign stay as they are.
proof fn lemma_nothing_to_unescape(b: Seq<u8>, i: int)
    requires
        0 <= i <= b.len(),
        forall|j: int| 0 <= j < b.len() ==> b[j] != 37,
    ensures
        unescaped(b, i) == b.skip(i),
    decreases b.len() - i,
{
    if i < b.len() {
        lemma_nothing_to_unescape(b, i + 1);
        assert(seq![b[i]] + b.skip(i + 1) =~= b.skip(i));
    } else {
        assert(b.skip(i) =~= Seq::empty());
    }
}

// ---------------------------------------------------------------------------
// Depth
// ---------------------------------------------------------------------------

/// The words for the depth that takes in every descendant.
pub open spec fn is_unbounded(word: Seq<char>) -> bool {
    word == "all"@ || word == "∞"@ || word == "inf"@ || word == "infinity"@ || word == "*"@ || word
        == "unlimited"@
}

/// The depth that a text asks for: at least one, and one where it is no number.
pub open spec fn depth_of(raw: Seq<char>) -> nat {
    let s = text::trim(raw);
    if s.len() == 0 {
        1
    } else {
        let key = percent_decoded(s);
        if is_unbounded(key) {
            GARDEN_DEPTH_ALL as nat
        } else {
            match text::parse_unsigned(key, usize::MAX as nat) {
                Some(n) => if n >= 1 {
                    n
                } else {
                    1
                },
                None => 1,
            }
        }
    }
}

/// Reads the depth of a ranking.
pub fn parse_garden_depth(raw: &str) -> (r: usize)
    ensures
        r == depth_of(raw@),
        r >= 1,
{
    let s: String = text::trim_str(raw);
    if s.as_str().is_empty() {
        return 1;
    }
    let decoded: String = percent_decode_basic(s.as_str());
    let key: &str = decoded.as_str();
    if text::same(key, "all") || text::same(key, "∞") || text::same(key, "inf") || text::same(
        key,
        "infinity",
    ) || text::same(key, "*") || text::same(key, "unlimited") {
        return GARDEN_DEPTH_ALL;
    }
    match text::parsed_unsigned(&text::chars(key), usize::MAX as u64) {
        Some(n) => if n >= 1 {
            n as usize
        } else {
            1
        },
        None => 1,
    }
}

/// The text that asks for a depth.
pub open spec fn depth_text(depth: nat) -> Seq<char> {
    if depth == GARDEN_DEPTH_ALL {
        "all"@
    } else {
        text::decimal(depth)
    }
}

/// The query value that asks for a depth.
pub fn garden_depth_query_value(depth: usize) -> (r: String)
    ensures
        r@ == depth_text(depth as nat),
{
    if depth == GARDEN_DEPTH_ALL {
        "all".to_owned()
    } else {
        text::size(depth)
    }
}

/// The depth that the first `depth` pair of a query asks for, from pair `i` on.
pub open spec fn depth_in_pairs(pairs: Seq<Seq<char>>, i: int) -> nat
    decreases pairs.len() - i,
{
    if i < 0 || i >= pairs.len() {
        1
    } else {
        match text::split_once(pairs[i], '=') {
            Some((k, v)) => if k == "depth"@ {
                depth_of(v)
            } else {
                depth_in_pairs(pairs, i + 1)
            },
            None => depth_in_pairs(pairs, i + 1),
        }
    }
}

/// The depth that a path with its query asks for.
pub open spec fn depth_in_uri(uri: Seq<char>) -> nat {
    match text::split_once(uri, '?') {
        Some((_, query)) => depth_in_pairs(text::split(query, '&'), 0),
        None => 1,
    }
}

/// The depth of the ranking that a path with its query asks for.
pub fn child_depth_from_uri(uri: &str) -> (r: usize)
    ensures
        r == depth_in_uri(uri@),
        r >= 1,
{
    let (_, query) = match text::split_at_first(&text::chars(uri), '?') {
        Some(p) => p,
        None => {
            return 1;
        },
    };
    let pairs: Vec<String> = text::split_chars(&query, '&');
    let ghost pv = text::views(pairs@);
    let word: Vec<char> = text::chars("depth");
    let mut i: usize = 0;
    while i < pairs.len()
        invariant
            i <= pairs.len(),
            pv == text::views(pairs@),
            word@ == "depth"@,
            depth_in_uri(uri@) == depth_in_pairs(pv, i as int),
        decreases pairs.len() - i,
    {
        assert(pv[i as int] == pairs@[i as int]@);
        match text::split_at_first(&text::chars(pairs[i].as_str()), '=') {
            Some((k, v)) => {
                if text::same_chars(&k, &word) {
                    return parse_garden_depth(text::string(&v).as_str());
                }
            },
            None => {},
        }
        i = i + 1;
    }
    1
}

/// The depths on offer, each with its label: one to three and all, and the current one before
/// the last where it is none of these.
pub open spec fn depth_options(current: nat) -> Seq<(Seq<char>, Seq<char>)> {
    let cur = depth_text(current);
    let first = seq![("1"@, "1"@), ("2"@, "2"@), ("3"@, "3"@)];
    if cur == "1"@ || cur == "2"@ || cur == "3"@ || cur == "all"@ {
        first.push(("all"@, "∞"@))
    } else {
        first.push((cur, cur)).push(("all"@, "∞"@))
    }
}

/// The depths on offer with their labels.
pub fn garden_depth_options(current: usize) -> (r: Vec<(String, String)>)
    ensures
        outside::pair_views(r@) == depth_options(current as nat),
{
    let cur: String = garden_depth_query_value(current);
    let c: &str = cur.as_str();
    let mut r: Vec<(String, String)> = Vec::new();
    r.push(("1".to_owned(), "1".to_owned()));
    r.push(("2".to_owned(), "2".to_owned()));
    r.push(("3".to_owned(), "3".to_owned()));
    if !(text::same(c, "1") || text::same(c, "2") || text::same(c, "3") || text::same(c, "all")) {
        r.push((cur.clone(), cur.clone()));
    }
    r.push(("all".to_owned(), "∞".to_owned()));
    assert(outside::pair_views(r@) =~= depth_options(current as nat));
    r
}

/// The current depth is always on offer.
pub proof fn law_current_depth_is_offered(current: nat)
    ensures
        exists|i: int|
            0 <= i < depth_options(current).len() && (#[trigger] depth_options(current)[i]).0
                == depth_text(current),
{
    let cur = depth_text(current);
    let o = depth_options(current);
    if cur == "1"@ {
        assert(o[0].0 == cur);
    } else if cur == "2"@ {
        assert(o[1].0 == cur);
    } else {
        assert(o[2].0 == cur || o[3].0 == cur);
    }
}

/// A number in decimal notation is read back as that number.
proof fn lemma_decimal_reads_back(n: nat)
    ensures
        text::decimal(n).len() > 0,
        forall|i: int| 0 <= i < text::decimal(n).len() ==> text::is_digit(text::decimal(n)[i]),
        text::digits_value(text::decimal(n)) == n,
    decreases n,
{
    let d = (n % 10) as int;
    assert(text::digit_char(d) as u32 == 48 + d);
    assert(text::is_digit(text::digit_char(d)));
    if n < 10 {
        assert(text::decimal(n).drop_last() =~= Seq::empty());
        reveal_with_fuel(text::digits_value, 2);
    } else {
        lemma_decimal_reads_back(n / 10);
        assert(text::decimal(n).drop_last() =~= text::decimal(n / 10));
    }
}

/// A text of digits is encoded without a percent sign.
proof fn lemma_digits_have_no_percent(s: Seq<char>)
    requires
        forall|i: int| 0 <= i < s.len() ==> text::is_digit(s[i]),
    ensures
        forall|j: int| 0 <= j < encode_utf8(s).len() ==> encode_utf8(s)[j] != 37,
    decreases s.len(),
{
    if s.len() > 0 {
        lemma_digits_have_no_percent(s.drop_first());
        let c = s[0] as u32;
        assert(48 <= c <= 57);
        assert(((c & 0x7F) as u8) == c as u8) by (bit_vector)
            requires
                48 <= c <= 57,
        ;
        assert(vstd::utf8::encode_scalar(c) =~= seq![(c & 0x7F) as u8]);
        let e = encode_utf8(s);
        assert(e =~= seq![c as u8] + encode_utf8(s.drop_first()));
    }
}

/// The text that asks for a depth is read back as that depth.
pub proof fn law_depth_round_trip(depth: nat)
    requires
        1 <= depth <= usize::MAX,
    ensures
        depth_of(depth_text(depth)) == depth,
{
    reveal_strlit("all");
    reveal_strlit("∞");
    reveal_strlit("inf");
    reveal_strlit("infinity");
    reveal_strlit("*");
    reveal_strlit("unlimited");
    let t = depth_text(depth);
    assert(t.len() > 0 && !text::is_white(t[0]) && !text::is_white(t.last()) && forall|j: int|
        0 <= j < encode_utf8(t).len() ==> encode_utf8(t)[j] != 37) by {
        if depth == GARDEN_DEPTH_ALL {
            reveal_with_fuel(encode_utf8, 4);
            assert(t =~= seq!['a', 'l', 'l']);
            assert(0x61u32 & 0x7F == 0x61u32) by (bit_vector);
            assert(0x6cu32 & 0x7F == 0x6cu32) by (bit_vector);
            assert(encode_utf8(t) =~= seq![0x61u8, 0x6cu8, 0x6cu8]);
        } else {
            lemma_decimal_reads_back(depth);
            lemma_digits_have_no_percent(t);
        }
    }
    assert(text::trim(t) == t) by {
        assert(text::trim_start(t) == t);
        assert(text::trim_end(t) == t);
    }
    lemma_nothing_to_unescape(encode_utf8(t), 0);
    assert(encode_utf8(t).skip(0) =~= encode_utf8(t));
    encode_utf8_decode_utf8(t);
    encode_utf8_valid_utf8(t);
    assert(percent_decoded(t) == t);
    if depth != GARDEN_DEPTH_ALL {
        lemma_decimal_reads_back(depth);
        assert(text::is_digit(t[0]));
        assert(!is_unbounded(t)) by {
            assert("all"@[0] == 'a');
            assert("inf"@[0] == 'i');
            assert("infinity"@[0] == 'i');
            assert("*"@[0] == '*');
            assert("unlimited"@[0] == 'u');
            assert("∞"@[0] == '∞');
        }
        assert(text::unsigned_digits(t) == t);
    }
}

// ---------------------------------------------------------------------------
// Aspects
// ---------------------------------------------------------------------------

/// Whether a character can stand in the slug of an aspect.
pub open spec fn is_slug_char(c: char) -> bool {
    ('a' <= c && c <= 'z') || text::is_digit(c) || c == '-' || c == '_'
}

/// Whether a text is the slug of an aspect: small letters, digits, hyphens and underscores, at
/// least one.
pub open spec fn is_aspect_slug(s: Seq<char>) -> bool {
    s.len() > 0 && forall|i: int| 0 <= i < s.len() ==> is_slug_char(#[trigger] s[i])
}

/// Whether a text is the slug of an aspect.
pub fn is_valid_aspect_slug(s: &str) -> (r: bool)
    ensures
        r == is_aspect_slug(s@),
{
    let v: Vec<char> = text::chars(s);
    if v.len() == 0 {
        return false;
    }
    let mut i: usize = 0;
    while i < v.len()
        invariant
            i <= v.len(),
            v@ == s@,
            forall|j: int| 0 <= j < i ==> is_slug_char(#[trigger] s@[j]),
        decreases v.len() - i,
    {
        let c: char = v[i];
        if !(('a' <= c && c <= 'z') || text::digit(c) || c == '-' || c == '_') {
            assert(!is_slug_char(s@[i as int]));
            return false;
        }
        i = i + 1;
    }
    true
}

// ---------------------------------------------------------------------------
// Content
// ---------------------------------------------------------------------------

/// Whether a scope has a garden: the public one always, a room once something was posted there.
pub fn room_scope_has_garden_content(reduced: &ReducerState, nav: &ThreadNav) -> (r: bool)
    ensures
        r == (nav@.scope is None || state::content_of(*reduced, nav@.scope) is Some),
{
    let scope: ScopeId = nav.scope();
    match &scope {
        ScopeId::Public => true,
        ScopeId::Room(_) => match reduced.content_for_scope(&scope) {
            Some(_) => true,
            None => false,
        },
    }
}

/// The garden of a scope that has one.
pub fn content_for_garden_view<'a>(reduced: &'a ReducerState, scope: &ScopeId) -> (r:
    &'a ContentState)
    requires
        state::content_of(*reduced, scope@) is Some,
    ensures
        state::content_of(*reduced, scope@) == Some(*r),
{
    match reduced.content_for_scope(scope) {
        Some(c) => c,
        None => reduced.public(),
    }
}

/// A path of this site is kept, without the white space around it; anything else leads home.
pub proof fn law_paths_behind_the_login(p: Seq<char>)
    requires
        p.len() > 0,
        !text::is_white(p[0]),
        !text::is_white(p.last()),
    ensures
        p[0] == '/' && (p.len() == 1 || p[1] != '/') ==> safe_next(p) == p,
        p[0] != '/' ==> safe_next(p) == "/"@,
        p.len() >= 2 && p[0] == '/' && p[1] == '/' ==> safe_next(p) == "/"@,
{
    reveal_strlit("/");
    reveal_strlit("//");
    let none = Seq::<char>::empty();
    text::law_trim(none, p, none);
    assert(none + p + none =~= p);
    assert("/"@ =~= seq!['/']);
    assert("//"@ =~= seq!['/', '/']);
    assert(p.subrange(0, 1) =~= seq![p[0]]);
    if p.len() >= 2 {
        assert(p.subrange(0, 2) =~= seq![p[0], p[1]]);
        if p[1] != '/' && text::has_prefix(p, "//"@) {
            assert(p.subrange(0, 2)[1] == '/');
        }
    }
    if text::has_prefix(p, "/"@) {
        assert(p.subrange(0, 1)[0] == '/');
    }
}

/// A percent sign with two hexadecimal digits stands for one byte, every other byte for itself.
pub proof fn law_escapes(b: Seq<u8>)
    requires
        b.len() > 0,
    ensures
        unescaped(b, 0).len() > 0,
        b[0] != 37 ==> unescaped(b, 0)[0] == b[0],
        b.len() >= 3 && b[0] == 37 && 48 <= b[1] <= 57 && 48 <= b[2] <= 57 ==> unescaped(b, 0)[0]
            == (b[1] - 48) * 16 + (b[2] - 48),
        b.len() >= 3 && b[0] == 37 && 65 <= b[1] <= 70 && 97 <= b[2] <= 102 ==> unescaped(b, 0)[0]
            == (b[1] - 55) * 16 + (b[2] - 87),
        b.len() < 3 ==> unescaped(b, 0)[0] == b[0],
{
}

/// The slug of an aspect is made of small letters, digits, hyphens and underscores, and of at
/// least one of them.
pub proof fn law_aspect_slugs(s: Seq<char>)
    ensures
        is_aspect_slug(s) <==> s.len() > 0 && forall|i: int|
            0 <= i < s.len() ==> {
                let c = #[trigger] s[i];
                'a' <= c <= 'z' || '0' <= c <= '9' || c == '-' || c == '_'
            },
{
    if is_aspect_slug(s) {
        assert forall|i: int| 0 <= i < s.len() implies {
            let c = #[trigger] s[i];
            'a' <= c <= 'z' || '0' <= c <= '9' || c == '-' || c == '_'
        } by {
            assert(is_slug_char(s[i]));
        }
    }
}

/// An item of the ontology is shown by the last segment of its path, an external one by its URL.
pub proof fn law_shown_items(front: Seq<char>, last: Seq<char>)
    requires
        front.len() > 0,
        paths::is_bare(last),
        !last.contains('/'),
        paths::is_bare(front),
    ensures
        shown_path("~/"@ + front + "/"@ + last) == "~/"@ + last,
        shown_path("~"@ + last) == "~/"@ + last,
{
    reveal_strlit("/");
    let t = front + "/"@ + last;
    assert(t[0] == front[0] && t.last() == last.last());
    paths::law_ontology_items(t);
    paths::law_ontology_items(last);
    paths::law_ontology_paths(front, last);
    assert("~/"@ + front + "/"@ + last =~= "~/"@ + t);
    assert("https://slug.social/~/"@ + t =~= "https://slug.social/~/"@ + front + "/"@ + last);
}

/// A depth is asked for by a number of at least one, or by a word for all of it; anything else
/// asks for one level. The first `depth` of a query counts.
pub proof fn law_depths(path: Seq<char>, v: Seq<char>, rest: Seq<char>)
    requires
        !path.contains('?'),
        !v.contains('&'),
    ensures
        depth_in_uri(path) == 1,
        depth_in_uri(path.push('?') + ("depth="@ + v)) == depth_of(v),
        depth_in_uri(path.push('?') + (("depth="@ + v).push('&') + rest)) == depth_of(v),
        depth_of(Seq::empty()) == 1,
{
    reveal_strlit("depth");
    reveal_strlit("depth=");
    let pair = "depth="@ + v;
    assert(pair =~= "depth"@.push('=') + v);
    assert(!"depth"@.contains('='));
    text::law_split_once("depth"@, '=', v);
    text::law_split_once(path, '?', pair);
    text::law_split_once(path, '?', pair.push('&') + rest);
    assert forall|i: int| 0 <= i < pair.len() implies pair[i] != '&' by {
        if i >= 6 {
            assert(pair[i] == v[i - 6]);
            assert(v.contains(v[i - 6]));
        }
    }
    text::law_split(pair, rest, '&');
    let one = text::split(pair, '&');
    assert(one[0] == pair);
    assert(depth_in_pairs(one, 0) == depth_of(v));
    let many = text::split(pair.push('&') + rest, '&');
    assert(many[0] == pair);
    assert(depth_in_pairs(many, 0) == depth_of(v));
    let none = Seq::<char>::empty();
    assert(text::trim_start(none) == none);
    assert(text::trim_end(none) == none);
}

} // verus!
