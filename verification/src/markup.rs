//! Text for pages: escaping, links, embedded media, and labels.

use vstd::prelude::*;

use crate::text;
use crate::unicode;

verus! {

// ---------------------------------------------------------------------------
// Escaping
// ---------------------------------------------------------------------------

/// One character as HTML text.
pub open spec fn escape_char(c: char) -> Seq<char> {
    if c == '&' {
        "&amp;"@
    } else if c == '<' {
        "&lt;"@
    } else if c == '>' {
        "&gt;"@
    } else if c == '"' {
        "&quot;"@
    } else {
        seq![c]
    }
}

/// A text as HTML text.
pub open spec fn escape(s: Seq<char>) -> Seq<char>
    decreases s.len(),
{
    if s.len() == 0 {
        Seq::empty()
    } else {
        escape(s.drop_last()) + escape_char(s.last())
    }
}

/// Escapes the characters that HTML gives a meaning.
pub fn escape_html(s: &str) -> (r: String)
    ensures
        r@ == escape(s@),
{
    let cs: Vec<char> = text::chars(s);
    let mut out: String = String::new();
    let mut i: usize = 0;
    while i < cs.len()
        invariant
            i <= cs.len(),
            out@ == escape(cs@.take(i as int)),
        decreases cs.len() - i,
    {
        assert(cs@.take(i + 1).drop_last() =~= cs@.take(i as int));
        let c: char = cs[i];
        if c == '&' {
            out.append("&amp;");
        } else if c == '<' {
            out.append("&lt;");
        } else if c == '>' {
            out.append("&gt;");
        } else if c == '"' {
            out.append("&quot;");
        } else {
            out.push(c);
            assert(out@ =~= escape(cs@.take(i as int)) + seq![c]);
        }
        i = i + 1;
    }
    assert(cs@.take(cs.len() as int) =~= cs@);
    out
}

/// Whether a text holds none of the characters that open or close a tag or an attribute.
pub open spec fn is_inert(s: Seq<char>) -> bool {
    forall|i: int| 0 <= i < s.len() ==> s[i] != '<' && s[i] != '>' && s[i] != '"'
}

/// Escaped text holds no angle bracket and no quote.
pub proof fn law_escaped_text_is_inert(s: Seq<char>)
    ensures
        is_inert(escape(s)),
    decreases s.len(),
{
    if s.len() > 0 {
        law_escaped_text_is_inert(s.drop_last());
        reveal_strlit("&amp;");
        reveal_strlit("&lt;");
        reveal_strlit("&gt;");
        reveal_strlit("&quot;");
    }
}

/// Escaping a text is escaping its parts.
pub proof fn law_escape_concat(a: Seq<char>, b: Seq<char>)
    ensures
        escape(a + b) == escape(a) + escape(b),
    decreases b.len(),
{
    if b.len() == 0 {
        assert(a + b =~= a);
        assert(escape(a) + escape(b) =~= escape(a));
    } else {
        law_escape_concat(a, b.drop_last());
        assert((a + b).drop_last() =~= a + b.drop_last());
        assert(escape(a + b) =~= escape(a) + escape(b));
    }
}

// ---------------------------------------------------------------------------
// Links
// ---------------------------------------------------------------------------

/// The characters of an item path in running text.
pub open spec fn is_path_char(c: char) -> bool {
    text::is_alnum(c) || c == '_' || c == '-' || c == '/'
}

/// How many path characters stand at place `i`.
pub open spec fn path_run(s: Seq<char>, i: int) -> nat
    decreases s.len() - i,
{
    if 0 <= i < s.len() && is_path_char(s[i]) {
        1 + path_run(s, i + 1)
    } else {
        0
    }
}

/// The link for one path.
pub open spec fn path_link(prefix: Seq<char>, path: Seq<char>) -> Seq<char> {
    "<a href=\""@ + prefix + "/"@ + path + "\" class=\"pre-link\">~/"@ + path + "</a>"@
}

/// `s` from place `i` on, each `~/path` as a link.
pub open spec fn link_from(s: Seq<char>, prefix: Seq<char>, i: int) -> Seq<char>
    decreases s.len() - i via link_from_terminates
{
    if i < 0 || i >= s.len() {
        Seq::empty()
    } else if text::occurs_at(s, "~/"@, i) && path_run(s, i + 2) > 0 {
        let n = path_run(s, i + 2);
        path_link(prefix, s.subrange(i + 2, i + 2 + n)) + link_from(s, prefix, i + 2 + n)
    } else {
        seq![s[i]] + link_from(s, prefix, i + 1)
    }
}

#[via_fn]
proof fn link_from_terminates(s: Seq<char>, prefix: Seq<char>, i: int) {
    lemma_path_run(s, i + 2);
}

/// Raw text as HTML, each `~/path` linked to the garden at `garden_prefix`.
pub open spec fn linkified(raw: Seq<char>, garden_prefix: Seq<char>) -> Seq<char> {
    link_from(escape(raw), escape(text::trim_char_end(garden_prefix, '/')), 0)
}

proof fn lemma_path_run(s: Seq<char>, i: int)
    ensures
        path_run(s, i) > 0 ==> i + path_run(s, i) <= s.len(),
    decreases s.len() - i,
{
    if 0 <= i < s.len() && is_path_char(s[i]) {
        lemma_path_run(s, i + 1);
    }
}

fn path_char(c: char) -> (r: bool)
    ensures
        r == is_path_char(c),
{
    text::alnum(c) || c == '_' || c == '-' || c == '/'
}

fn run_at(s: &Vec<char>, i: usize) -> (n: usize)
    requires
        i <= s@.len(),
    ensures
        n == path_run(s@, i as int),
        i + n <= s@.len(),
{
    let mut n: usize = 0;
    while i + n < s.len() && path_char(s[i + n])
        invariant
            i + n <= s.len(),
            path_run(s@, i as int) == n + path_run(s@, i + n),
        decreases s.len() - i - n,
    {
        n = n + 1;
    }
    n
}

/// Links each `~/path` of a raw text to the garden at a prefix.
pub fn linkify_slugs_with_prefix(raw: &str, garden_prefix: &str) -> (r: String)
    ensures
        r@ == linkified(raw@, garden_prefix@),
{
    let escaped: String = escape_html(raw);
    let s: Vec<char> = text::chars(escaped.as_str());
    let base: String = text::string(
        &text::without_trailing(&text::chars(garden_prefix), '/'),
    );
    let prefix: String = escape_html(base.as_str());
    let tilde: Vec<char> = text::chars("~/");
    proof {
        reveal_strlit("~/");
    }
    let mut out: String = String::new();
    let mut i: usize = 0;
    let ghost goal = linkified(raw@, garden_prefix@);
    assert(out@ + link_from(s@, prefix@, 0) =~= goal);
    while i < s.len()
        invariant
            i <= s.len(),
            tilde@ == "~/"@,
            tilde@.len() == 2,
            out@ + link_from(s@, prefix@, i as int) == goal,
        decreases s.len() - i,
    {
        let ghost before = out@;
        let mut n: usize = 0;
        if text::at(&s, &tilde, i) {
            n = run_at(&s, i + 2);
        }
        if n > 0 {
            let path: String = text::string(&text::cut(&s, i + 2, i + 2 + n));
            let ghost link = path_link(prefix@, path@);
            let mut a: String = "<a href=\"".to_owned();
            a.append(prefix.as_str());
            a.append("/");
            a.append(path.as_str());
            a.append("\" class=\"pre-link\">~/");
            a.append(path.as_str());
            a.append("</a>");
            out.append(a.as_str());
            assert(before + (link + link_from(s@, prefix@, i + 2 + n)) =~= (before + link)
                + link_from(s@, prefix@, i + 2 + n));
            i = i + 2 + n;
        } else {
            out.push(s[i]);
            assert(before + (seq![s@[i as int]] + link_from(s@, prefix@, i + 1)) =~= out@
                + link_from(s@, prefix@, i + 1));
            i = i + 1;
        }
    }
    assert(out@ + link_from(s@, prefix@, i as int) =~= out@);
    out
}

/// Links each `~/path` of a raw text to the public garden.
pub fn linkify_slugs(raw: &str) -> (r: String)
    ensures
        r@ == linkified(raw@, "/~"@),
{
    linkify_slugs_with_prefix(raw, "/~")
}

/// A text without `~/` has nothing to link: it is only escaped.
pub proof fn law_text_without_paths_is_only_escaped(raw: Seq<char>, prefix: Seq<char>)
    requires
        !text::has(escape(raw), "~/"@),
    ensures
        linkified(raw, prefix) == escape(raw),
{
    let s = escape(raw);
    text::lemma_find(s, "~/"@, 0);
    lemma_no_link(s, escape(text::trim_char_end(prefix, '/')), 0);
    assert(s.skip(0) =~= s);
}

proof fn lemma_no_link(s: Seq<char>, prefix: Seq<char>, i: int)
    requires
        0 <= i <= s.len(),
        forall|j: int| 0 <= j ==> !#[trigger] text::occurs_at(s, "~/"@, j),
    ensures
        link_from(s, prefix, i) == s.skip(i),
    decreases s.len() - i,
{
    if i < s.len() {
        lemma_no_link(s, prefix, i + 1);
        assert(!text::occurs_at(s, "~/"@, i));
        assert(link_from(s, prefix, i) =~= s.skip(i));
    } else {
        assert(s.skip(i) =~= Seq::empty());
    }
}

proof fn lemma_link_ahead(a: Seq<char>, t: Seq<char>, prefix: Seq<char>, i: int)
    requires
        0 <= i <= a.len(),
        !a.contains('~'),
    ensures
        link_from(a + t, prefix, i) == a.skip(i) + link_from(t, prefix, 0),
    decreases a.len() - i,
{
    let s = a + t;
    if i < a.len() {
        lemma_link_ahead(a, t, prefix, i + 1);
        reveal_strlit("~/");
        if text::occurs_at(s, "~/"@, i) {
            assert(s.subrange(i, i + 2)[0] == '~');
            assert(a[i] == '~');
        }
        assert(link_from(s, prefix, i) =~= seq![a[i]] + (a.skip(i + 1) + link_from(t, prefix, 0)));
        assert(seq![a[i]] + a.skip(i + 1) =~= a.skip(i));
        assert(link_from(s, prefix, i) =~= a.skip(i) + link_from(t, prefix, 0));
    } else {
        lemma_link_shift(a, t, prefix, 0);
        assert(a.skip(i) =~= Seq::empty());
        assert(a.skip(i) + link_from(t, prefix, 0) =~= link_from(t, prefix, 0));
    }
}

proof fn lemma_run_shift(a: Seq<char>, t: Seq<char>, i: int)
    requires
        0 <= i,
    ensures
        path_run(a + t, a.len() + i) == path_run(t, i),
    decreases t.len() - i,
{
    if i < t.len() {
        assert((a + t)[a.len() + i] == t[i]);
        lemma_run_shift(a, t, i + 1);
    }
}

proof fn lemma_link_shift(a: Seq<char>, t: Seq<char>, prefix: Seq<char>, i: int)
    requires
        0 <= i,
    ensures
        link_from(a + t, prefix, a.len() + i) == link_from(t, prefix, i),
    decreases t.len() - i,
{
    let s = a + t;
    if i < t.len() {
        assert(s[a.len() + i] == t[i]);
        lemma_run_shift(a, t, i + 2);
        reveal_strlit("~/");
        if i + 2 <= t.len() {
            assert(s.subrange(a.len() + i, a.len() + i + 2) =~= t.subrange(i, i + 2));
        }
        let n = path_run(t, i + 2);
        lemma_path_run(t, i + 2);
        if text::occurs_at(t, "~/"@, i) && n > 0 {
            lemma_link_shift(a, t, prefix, i + 2 + n as int);
            assert(s.subrange(a.len() + i + 2, a.len() + i + 2 + n) =~= t.subrange(
                i + 2,
                i + 2 + n,
            ));
        } else {
            lemma_link_shift(a, t, prefix, i + 1);
        }
    }
}

proof fn lemma_run_of(s: Seq<char>, i: int, n: int)
    requires
        0 <= i,
        0 <= n,
        i + n <= s.len(),
        forall|k: int| i <= k < i + n ==> is_path_char(#[trigger] s[k]),
        i + n < s.len() ==> !is_path_char(s[i + n]),
    ensures
        path_run(s, i) == n,
    decreases n,
{
    if n > 0 {
        assert(is_path_char(s[i]));
        lemma_run_of(s, i + 1, n - 1);
    }
}

proof fn lemma_escape_plain(s: Seq<char>)
    requires
        forall|i: int|
            0 <= i < s.len() ==> #[trigger] s[i] != '&' && s[i] != '<' && s[i] != '>' && s[i] != '"',
    ensures
        escape(s) == s,
    decreases s.len(),
{
    if s.len() > 0 {
        assert forall|i: int| 0 <= i < s.drop_last().len() implies #[trigger] s.drop_last()[i] != '&'
            && s.drop_last()[i] != '<' && s.drop_last()[i] != '>' && s.drop_last()[i] != '"' by {
            assert(s.drop_last()[i] == s[i]);
        }
        lemma_escape_plain(s.drop_last());
        assert(s[s.len() - 1] != '&');
        assert(escape(s) =~= s);
    } else {
        assert(escape(s) =~= s);
    }
}

proof fn lemma_escape_tilde_free(s: Seq<char>)
    requires
        !s.contains('~'),
    ensures
        !escape(s).contains('~'),
    decreases s.len(),
{
    if s.len() > 0 {
        assert forall|i: int| 0 <= i < s.drop_last().len() implies s.drop_last()[i] != '~' by {
            assert(s[i] != '~');
        }
        lemma_escape_tilde_free(s.drop_last());
        reveal_strlit("&amp;");
        reveal_strlit("&lt;");
        reveal_strlit("&gt;");
        reveal_strlit("&quot;");
        assert(s[s.len() - 1] != '~');
        let front = escape(s.drop_last());
        let last = escape_char(s.last());
        assert forall|i: int| 0 <= i < escape(s).len() implies escape(s)[i] != '~' by {
            if i < front.len() {
                assert(front.contains(front[i]));
                assert(escape(s)[i] == front[i]);
            } else {
                assert(escape(s)[i] == last[i - front.len()]);
            }
        }
    }
}

proof fn lemma_escape_first(s: Seq<char>)
    requires
        s.len() > 0,
    ensures
        escape(s).len() > 0,
        escape(s)[0] == if s[0] == '&' || s[0] == '<' || s[0] == '>' || s[0] == '"' {
            '&'
        } else {
            s[0]
        },
{
    let one = s.take(1);
    assert(one + s.skip(1) =~= s);
    law_escape_concat(one, s.skip(1));
    assert(one.drop_last() =~= Seq::empty());
    assert(escape(one.drop_last()) =~= Seq::empty());
    assert(escape(one) =~= escape_char(s[0]));
    reveal_strlit("&amp;");
    reveal_strlit("&lt;");
    reveal_strlit("&gt;");
    reveal_strlit("&quot;");
}

proof fn lemma_link_in_front(path: Seq<char>, rest: Seq<char>, p: Seq<char>)
    requires
        path.len() > 0,
        forall|i: int| 0 <= i < path.len() ==> is_path_char(#[trigger] path[i]),
        rest.len() > 0 ==> !is_path_char(rest[0]),
    ensures
        link_from("~/"@ + path + rest, p, 0) == path_link(p, path) + link_from(rest, p, 0),
{
    reveal_strlit("~/");
    let mark = "~/"@ + path;
    let t = mark + rest;
    let end = 2 + path.len() as int;
    assert(mark.len() == end);
    if rest.len() > 0 {
        assert(t[end] == rest[0]);
    }
    assert forall|k: int| 2 <= k < end implies is_path_char(#[trigger] t[k]) by {
        assert(t[k] == path[k - 2]);
    }
    lemma_run_of(t, 2, path.len() as int);
    assert(t.subrange(0, 2) =~= "~/"@);
    assert(text::occurs_at(t, "~/"@, 0));
    assert(t.subrange(2, end) =~= path);
    lemma_link_shift(mark, rest, p, 0);
}

proof fn lemma_link_parts(a: Seq<char>, p: Seq<char>, path: Seq<char>, z: Seq<char>)
    ensures
        a + (path_link(p, path) + z) == a + "<a href=\""@ + p + "/"@ + path
            + "\" class=\"pre-link\">~/"@ + path + "</a>"@ + z,
{
    assert(a + (path_link(p, path) + z) =~= a + "<a href=\""@ + p + "/"@ + path
        + "\" class=\"pre-link\">~/"@ + path + "</a>"@ + z);
}

/// A `~/` with a path behind it is one link: its target is the prefix and the path, its label
/// the text as it stands. The path reaches as far as ASCII letters, digits, `_`, `-` and `/` do;
/// what stands in front of it is only escaped, and what stands behind it is linked by itself.
#[verifier::rlimit(50)]
pub proof fn law_path_is_one_link(
    before: Seq<char>,
    path: Seq<char>,
    behind: Seq<char>,
    prefix: Seq<char>,
)
    requires
        !before.contains('~'),
        path.len() > 0,
        forall|i: int|
            0 <= i < path.len() ==> {
                let c = #[trigger] path[i];
                'a' <= c <= 'z' || 'A' <= c <= 'Z' || '0' <= c <= '9' || c == '_' || c == '-' || c
                    == '/'
            },
        behind.len() > 0 ==> {
            let c = behind[0];
            !('a' <= c <= 'z' || 'A' <= c <= 'Z' || '0' <= c <= '9' || c == '_' || c == '-' || c
                == '/')
        },
    ensures
        linkified(before + "~/"@ + path + behind, prefix) == escape(before) + "<a href=\""@ + escape(
            text::trim_char_end(prefix, '/'),
        ) + "/"@ + path + "\" class=\"pre-link\">~/"@ + path + "</a>"@ + linkified(behind, prefix),
{
    reveal_strlit("~/");
    let p = escape(text::trim_char_end(prefix, '/'));
    let mark = "~/"@ + path;
    let raw = before + "~/"@ + path + behind;
    assert(raw =~= before + (mark + behind));
    law_escape_concat(before, mark + behind);
    law_escape_concat(mark, behind);
    assert forall|i: int| 0 <= i < mark.len() implies #[trigger] mark[i] != '&' && mark[i] != '<'
        && mark[i] != '>' && mark[i] != '"' by {
        if i >= 2 {
            assert(mark[i] == path[i - 2]);
        }
    }
    lemma_escape_plain(mark);
    lemma_escape_tilde_free(before);
    let rest = escape(behind);
    let t = mark + rest;
    assert(escape(raw) =~= escape(before) + t);
    lemma_link_ahead(escape(before), t, p, 0);
    assert(escape(before).skip(0) =~= escape(before));
    if behind.len() > 0 {
        lemma_escape_first(behind);
    } else {
        assert(rest =~= Seq::empty());
    }
    lemma_link_in_front(path, rest, p);
    lemma_link_parts(escape(before), p, path, link_from(rest, p, 0));
}

/// A `~` that is not followed by a slash and a character of a path stands for itself, and what
/// follows it is linked by itself.
#[verifier::rlimit(50)]
pub proof fn law_lone_tilde_is_text(before: Seq<char>, behind: Seq<char>, prefix: Seq<char>)
    requires
        !before.contains('~'),
        behind.len() >= 2 && behind[0] == '/' ==> {
            let c = behind[1];
            !('a' <= c <= 'z' || 'A' <= c <= 'Z' || '0' <= c <= '9' || c == '_' || c == '-' || c
                == '/')
        },
    ensures
        linkified(before + "~"@ + behind, prefix) == escape(before) + "~"@ + linkified(
            behind,
            prefix,
        ),
{
    reveal_strlit("~");
    reveal_strlit("~/");
    let p = escape(text::trim_char_end(prefix, '/'));
    let raw = before + "~"@ + behind;
    assert(raw =~= before + ("~"@ + behind));
    law_escape_concat(before, "~"@ + behind);
    law_escape_concat("~"@, behind);
    lemma_escape_plain("~"@);
    lemma_escape_tilde_free(before);
    let rest = escape(behind);
    let t = "~"@ + rest;
    assert(escape(raw) =~= escape(before) + t);
    lemma_link_ahead(escape(before), t, p, 0);
    assert(escape(before).skip(0) =~= escape(before));
    if text::occurs_at(t, "~/"@, 0) && path_run(t, 2) > 0 {
        assert(t.subrange(0, 2)[1] == '/');
        assert(rest[0] == '/');
        if behind.len() == 0 {
            assert(rest =~= Seq::empty());
        }
        lemma_escape_first(behind);
        assert(behind[0] == '/');
        let one = behind.take(1);
        assert(one + behind.skip(1) =~= behind);
        law_escape_concat(one, behind.skip(1));
        lemma_escape_plain(one);
        assert(is_path_char(t[2]));
        assert(t[2] == rest[1]);
        if behind.len() == 1 {
            assert(behind.skip(1) =~= Seq::empty());
            assert(escape(behind.skip(1)) =~= Seq::empty());
        } else {
            lemma_escape_first(behind.skip(1));
            assert(rest[1] == escape(behind.skip(1))[0]);
            assert(behind.skip(1)[0] == behind[1]);
        }
        assert(false);
    }
    lemma_link_shift("~"@, rest, p, 0);
    assert(t[0] == '~');
    assert(link_from(t, p, 0) =~= "~"@ + link_from(rest, p, 0));
    assert(escape(before) + ("~"@ + link_from(rest, p, 0)) =~= escape(before) + "~"@ + link_from(
        rest,
        p,
        0,
    ));
}

/// Escaping keeps every character but four, for which it writes what HTML calls them by.
pub proof fn law_escape_by_character(c: char)
    ensures
        escape(seq![c]) == if c == '&' {
            seq!['&', 'a', 'm', 'p', ';']
        } else if c == '<' {
            seq!['&', 'l', 't', ';']
        } else if c == '>' {
            seq!['&', 'g', 't', ';']
        } else if c == '"' {
            seq!['&', 'q', 'u', 'o', 't', ';']
        } else {
            seq![c]
        },
        escape(Seq::empty()) == Seq::<char>::empty(),
{
    reveal_strlit("&amp;");
    reveal_strlit("&lt;");
    reveal_strlit("&gt;");
    reveal_strlit("&quot;");
    let one = seq![c];
    assert(one.drop_last() =~= Seq::empty());
    assert(escape(one.drop_last()) =~= Seq::empty());
    assert(one.last() == c);
    assert(escape(one) =~= escape_char(c));
    assert("&amp;"@ =~= seq!['&', 'a', 'm', 'p', ';']);
    assert("&lt;"@ =~= seq!['&', 'l', 't', ';']);
    assert("&gt;"@ =~= seq!['&', 'g', 't', ';']);
    assert("&quot;"@ =~= seq!['&', 'q', 'u', 'o', 't', ';']);
}

// ---------------------------------------------------------------------------
// Labels
// ---------------------------------------------------------------------------

/// The page of a user.
pub fn profile_href(username: &str) -> (r: String)
    ensures
        r@ == "/u/"@ + username@,
{
    text::cat("/u/", username)
}

/// The short label of an agent `uuid:rig:model`: the handle for accounts of x.com, otherwise
/// eight characters of the id, the rig and the model; other texts are only trimmed.
pub open spec fn agent_label(agent: Seq<char>) -> Seq<char> {
    let a = text::trim(agent);
    let parts = text::split(a, ':');
    if parts.len() >= 3 {
        let uuid8 = text::head(text::trim(parts[0]), 8);
        let rig = text::trim(parts[1]);
        let model = text::trim(parts[2]);
        if rig == "x.com"@ {
            "@"@ + model
        } else if uuid8.len() > 0 && rig.len() > 0 && model.len() > 0 {
            uuid8 + ":"@ + rig + ":"@ + model
        } else {
            a
        }
    } else {
        a
    }
}

/// The short label of an agent.
pub fn actor_label(agent_naked: &str) -> (r: String)
    ensures
        r@ == agent_label(agent_naked@),
{
    let a: Vec<char> = text::trimmed(&text::chars(agent_naked));
    let parts: Vec<String> = text::split_chars(&a, ':');
    let ghost ps = text::split(a@, ':');
    assert(ps.len() == parts@.len());
    if parts.len() >= 3 {
        assert(ps[0] == parts@[0]@ && ps[1] == parts@[1]@ && ps[2] == parts@[2]@);
        let rig: String = text::trim_str(parts[1].as_str());
        let model: String = text::trim_str(parts[2].as_str());
        if text::same(rig.as_str(), "x.com") {
            return text::cat("@", model.as_str());
        }
        let uuid8: String = text::string(
            &text::first_chars(&text::trimmed(&text::chars(parts[0].as_str())), 8),
        );
        if !uuid8.as_str().is_empty() && !rig.as_str().is_empty() && !model.as_str().is_empty() {
            return text::cat5(uuid8.as_str(), ":", rig.as_str(), ":", model.as_str());
        }
    }
    text::string(&a)
}

/// Who a post is attributed to: the person, or the agent that wrote for them.
pub open spec fn authorship(principal: Seq<char>, delegate: Option<Seq<char>>) -> Seq<char> {
    match delegate {
        Some(d) => "@@"@ + agent_label(d),
        None => "@"@ + principal,
    }
}

/// Who a post is attributed to.
pub fn authorship_address(principal: &str, delegate: &Option<String>) -> (r: String)
    ensures
        r@ == authorship(principal@, text::opt_view(*delegate)),
{
    match delegate {
        Some(d) => {
            let l: String = actor_label(d.as_str());
            text::cat("@@", l.as_str())
        },
        None => text::cat("@", principal),
    }
}

/// The age of a time in whole seconds, truncated towards zero; the age in milliseconds stays
/// within 64 bits.
pub open spec fn age_seconds(now_ms: int, ts_ms: int) -> int {
    let d = now_ms - ts_ms;
    let ms = if d > i64::MAX {
        i64::MAX as int
    } else if d < i64::MIN {
        i64::MIN as int
    } else {
        d
    };
    if ms >= 0 {
        ms / 1000
    } else {
        -((-ms) / 1000)
    }
}

/// The class that colours a time by its age: under an hour, a day, a week, or older.
pub fn recency_class(now_ms: i64, ts_ms: i64) -> (r: &'static str)
    ensures
        r@ == if age_seconds(now_ms as int, ts_ms as int) < 3600 {
            "age-fresh"@
        } else if age_seconds(now_ms as int, ts_ms as int) < 86400 {
            "age-recent"@
        } else if age_seconds(now_ms as int, ts_ms as int) < 604800 {
            "age-week"@
        } else {
            "age-old"@
        },
{
    let wide: i128 = (now_ms as i128) - (ts_ms as i128);
    let ms: i128 = if wide > i64::MAX as i128 {
        i64::MAX as i128
    } else if wide < i64::MIN as i128 {
        i64::MIN as i128
    } else {
        wide
    };
    if ms < 3600000 {
        "age-fresh"
    } else if ms < 86400000 {
        "age-recent"
    } else if ms < 604800000 {
        "age-week"
    } else {
        "age-old"
    }
}

/// The script that copies a command line to the clipboard.
pub fn cli_copy_script(cmd: &str) -> (r: String)
    ensures
        r@ == "navigator.clipboard.writeText('"@ + text::replace(cmd@, "'"@, "\\'"@)
            + "'); this.textContent='✓'; setTimeout(() => this.textContent='copy', 2000);"@,
{
    proof {
        reveal_strlit("'");
    }
    let quoted: String = text::string(&text::replaced(&text::chars(cmd), "'", "\\'"));
    text::cat3(
        "navigator.clipboard.writeText('",
        quoted.as_str(),
        "'); this.textContent='✓'; setTimeout(() => this.textContent='copy', 2000);",
    )
}

// ---------------------------------------------------------------------------
// Embedded media
// ---------------------------------------------------------------------------

/// A frame for a media player.
pub struct EmbedFrame {
    pub src: String,
    pub title: String,
    pub provider_class: &'static str,
}

/// The mathematical value of an [`EmbedFrame`].
pub struct FrameModel {
    pub src: Seq<char>,
    pub title: Seq<char>,
    pub class: Seq<char>,
}

impl View for EmbedFrame {
    type V = FrameModel;

    open spec fn view(&self) -> FrameModel {
        FrameModel { src: self.src@, title: self.title@, class: self.provider_class@ }
    }
}

/// The characters of a media id.
pub open spec fn is_media_char(c: char) -> bool {
    text::is_alnum(c) || c == '-' || c == '_'
}

/// The leading media id of a text.
pub open spec fn media_id(s: Seq<char>) -> Seq<char>
    decreases s.len(),
{
    if s.len() > 0 && is_media_char(s[0]) {
        seq![s[0]] + media_id(s.skip(1))
    } else {
        Seq::empty()
    }
}

/// Takes the leading media id of a text.
pub fn clean_media_id(s: &Vec<char>) -> (r: Vec<char>)
    ensures
        r@ == media_id(s@),
{
    let mut r: Vec<char> = Vec::new();
    let mut i: usize = 0;
    assert(s@.skip(0) =~= s@);
    assert(r@ + media_id(s@.skip(0)) =~= media_id(s@));
    while i < s.len() && (text::alnum(s[i]) || s[i] == '-' || s[i] == '_')
        invariant
            i <= s.len(),
            r@ + media_id(s@.skip(i as int)) == media_id(s@),
        decreases s.len() - i,
    {
        let ghost before = r@;
        assert(s@.skip(i as int).skip(1) =~= s@.skip(i + 1));
        r.push(s[i]);
        assert(before + (seq![s@[i as int]] + media_id(s@.skip(i + 1))) =~= r@ + media_id(
            s@.skip(i + 1),
        ));
        i = i + 1;
    }
    assert(r@ + media_id(s@.skip(i as int)) =~= r@);
    r
}

/// The value of a `key=value` pair, where the key is `name`; a pair without `=` has no value.
pub open spec fn pair_value(pair: Seq<char>, name: Seq<char>) -> Option<Seq<char>> {
    let (k, v) = match text::split_once(pair, '=') {
        Some((k, v)) => (k, v),
        None => (pair, Seq::empty()),
    };
    if k == name {
        Some(v)
    } else {
        None
    }
}

/// The value of the first of the pairs from place `i` on whose key is `name`.
pub open spec fn first_value(pairs: Seq<Seq<char>>, name: Seq<char>, i: int) -> Option<Seq<char>>
    decreases pairs.len() - i,
{
    if i < 0 || i >= pairs.len() {
        None
    } else {
        match pair_value(pairs[i], name) {
            Some(v) => Some(v),
            None => first_value(pairs, name, i + 1),
        }
    }
}

/// The value of a query parameter of a URL.
pub open spec fn query_value(url: Seq<char>, name: Seq<char>) -> Option<Seq<char>> {
    match text::split_once(url, '?') {
        Some((_, q)) => first_value(text::split(q, '&'), name, 0),
        None => None,
    }
}

/// The value of a query parameter of a URL.
pub fn query_param(url: &Vec<char>, name: &str) -> (r: Option<Vec<char>>)
    ensures
        match r {
            Some(v) => query_value(url@, name@) == Some(v@),
            None => query_value(url@, name@) is None,
        },
{
    match text::split_at_first(url, '?') {
        Some((_, q)) => {
            let pairs: Vec<String> = text::split_chars(&q, '&');
            let wanted: Vec<char> = text::chars(name);
            let ghost ps = text::split(q@, '&');
            let mut i: usize = 0;
            while i < pairs.len()
                invariant
                    i <= pairs.len(),
                    wanted@ == name@,
                    ps == text::views(pairs@),
                    ps == text::split(q@, '&'),
                    query_value(url@, name@) == first_value(ps, name@, 0),
                    first_value(ps, name@, 0) == first_value(ps, name@, i as int),
                decreases pairs.len() - i,
            {
                let pair: Vec<char> = text::chars(pairs[i].as_str());
                assert(ps[i as int] == pair@);
                match text::split_at_first(&pair, '=') {
                    Some((k, v)) => {
                        if text::same_chars(&k, &wanted) {
                            return Some(v);
                        }
                    },
                    None => {
                        if text::same_chars(&pair, &wanted) {
                            let v: Vec<char> = Vec::new();
                            assert(v@ =~= Seq::empty());
                            return Some(v);
                        }
                    },
                }
                i = i + 1;
            }
            None
        },
        None => None,
    }
}

/// A web URL without its scheme.
pub open spec fn without_scheme(url: Seq<char>) -> Option<Seq<char>> {
    match text::strip_prefix(url, "https://"@) {
        Some(r) => Some(r),
        None => text::strip_prefix(url, "http://"@),
    }
}

/// The host of a URL without scheme.
pub open spec fn host_part(rest: Seq<char>) -> Seq<char> {
    text::before(rest, '/')
}

/// What follows the slash behind the host.
pub open spec fn tail_part(rest: Seq<char>) -> Seq<char> {
    match text::split_once(rest, '/') {
        Some((_, t)) => t,
        None => Seq::empty(),
    }
}

/// What stands before the first of two characters.
pub open spec fn before2(s: Seq<char>, a: char, b: char) -> Seq<char> {
    text::before(text::before(s, a), b)
}

/// The player for a path on Spotify's host.
pub open spec fn spotify_frame(host: Seq<char>, tail: Seq<char>) -> Option<FrameModel> {
    let all = text::nonempty(text::split(before2(tail, '#', '?'), '/'));
    let segs = if all.len() > 0 && text::has_prefix(all[0], "intl-"@) {
        all.skip(1)
    } else {
        all
    };
    if (host == "open.spotify.com"@ || host == "www.open.spotify.com"@) && segs.len() >= 2
        && media_id(segs[1]).len() > 0 && (segs[0] == "track"@ || segs[0] == "album"@ || segs[0]
        == "playlist"@ || segs[0] == "episode"@ || segs[0] == "show"@) {
        Some(
            FrameModel {
                src: "https://open.spotify.com/embed/"@ + segs[0] + "/"@ + media_id(segs[1]),
                title: "Spotify "@ + segs[0],
                class: "embed-spotify"@,
            },
        )
    } else {
        None
    }
}

/// The player for a path on Spotify, given the host in small letters.
pub fn spotify_frame_for(host: &str, tail: &Vec<char>) -> (r: Option<EmbedFrame>)
    ensures
        match r {
            Some(f) => spotify_frame(host@, tail@) == Some(f@),
            None => spotify_frame(host@, tail@) is None,
        },
{
    if !(text::same(host, "open.spotify.com") || text::same(host, "www.open.spotify.com")) {
        return None;
    }
    let path: Vec<char> = text::upto(&text::upto(tail, '#'), '?');
    let all: Vec<String> = text::without_empty(&text::split_chars(&path, '/'));
    let ghost segs0 = text::nonempty(text::split(path@, '/'));
    assert(segs0 == text::views(all@));
    let skip: usize = if all.len() > 0 && text::starts_with(
        &text::chars(all[0].as_str()),
        "intl-",
    ) {
        1
    } else {
        0
    };
    if all.len() < skip + 2 {
        return None;
    }
    let kind: &str = all[skip].as_str();
    let id: Vec<char> = clean_media_id(&text::chars(all[skip + 1].as_str()));
    assert(kind@ == segs0.skip(skip as int)[0]);
    assert(id@ == media_id(segs0.skip(skip as int)[1]));
    assert(segs0.skip(0) =~= segs0);
    if id.len() == 0 {
        return None;
    }
    if !(text::same(kind, "track") || text::same(kind, "album") || text::same(kind, "playlist")
        || text::same(kind, "episode") || text::same(kind, "show")) {
        return None;
    }
    let ids: String = text::string(&id);
    Some(
        EmbedFrame {
            src: text::cat4("https://open.spotify.com/embed/", kind, "/", ids.as_str()),
            title: text::cat("Spotify ", kind),
            provider_class: "embed-spotify",
        },
    )
}

/// The id of the video that a URL on a YouTube host shows.
pub open spec fn youtube_id(host: Seq<char>, tail: Seq<char>, url: Seq<char>) -> Seq<char> {
    if host == "youtu.be"@ || host == "www.youtu.be"@ {
        media_id(
            text::trim_char_end(text::trim_char_start(before2(tail, '?', '#'), '/'), '/'),
        )
    } else if host == "youtube.com"@ || host == "www.youtube.com"@ || host == "m.youtube.com"@
        || host == "music.youtube.com"@ {
        let path = "/"@ + text::before(tail, '#');
        if text::has_prefix(path, "/watch"@) {
            match query_value(url, "v"@) {
                Some(v) => media_id(v),
                None => Seq::empty(),
            }
        } else {
            match text::strip_prefix(path, "/shorts/"@) {
                Some(id) => media_id(before2(id, '?', '/')),
                None => match text::strip_prefix(path, "/embed/"@) {
                    Some(id) => media_id(before2(id, '?', '/')),
                    None => Seq::empty(),
                },
            }
        }
    } else {
        Seq::empty()
    }
}

/// The player for a URL on YouTube.
pub open spec fn youtube_frame(host: Seq<char>, tail: Seq<char>, url: Seq<char>) -> Option<
    FrameModel,
> {
    let id = youtube_id(host, tail, url);
    if id.len() == 0 {
        None
    } else {
        Some(
            FrameModel {
                src: "https://www.youtube.com/embed/"@ + id,
                title: "YouTube video"@,
                class: "embed-youtube"@,
            },
        )
    }
}

fn upto2(s: &Vec<char>, a: char, b: char) -> (r: Vec<char>)
    ensures
        r@ == before2(s@, a, b),
{
    text::upto(&text::upto(s, a), b)
}

fn nothing() -> (r: Vec<char>)
    ensures
        r@ == Seq::<char>::empty(),
{
    let r: Vec<char> = Vec::new();
    assert(r@ =~= Seq::empty());
    r
}

fn youtube_video(host: &str, tail: &Vec<char>, url: &Vec<char>) -> (r: Vec<char>)
    ensures
        r@ == youtube_id(host@, tail@, url@),
{
    if text::same(host, "youtu.be") || text::same(host, "www.youtu.be") {
        let p: Vec<char> = upto2(tail, '?', '#');
        return clean_media_id(&text::without_trailing(&text::without_leading(&p, '/'), '/'));
    }
    if !(text::same(host, "youtube.com") || text::same(host, "www.youtube.com") || text::same(
        host,
        "m.youtube.com",
    ) || text::same(host, "music.youtube.com")) {
        return nothing();
    }
    let t: String = text::string(&text::upto(tail, '#'));
    let path: Vec<char> = text::chars(text::cat("/", t.as_str()).as_str());
    if text::starts_with(&path, "/watch") {
        return match query_param(url, "v") {
            Some(v) => clean_media_id(&v),
            None => nothing(),
        };
    }
    match text::without_prefix(&path, "/shorts/") {
        Some(id) => clean_media_id(&upto2(&id, '?', '/')),
        None => match text::without_prefix(&path, "/embed/") {
            Some(id) => clean_media_id(&upto2(&id, '?', '/')),
            None => nothing(),
        },
    }
}

/// The player for a URL on YouTube, given the host in small letters.
pub fn youtube_frame_for(host: &str, tail: &Vec<char>, url: &Vec<char>) -> (r: Option<EmbedFrame>)
    ensures
        match r {
            Some(f) => youtube_frame(host@, tail@, url@) == Some(f@),
            None => youtube_frame(host@, tail@, url@) is None,
        },
{
    let id: Vec<char> = youtube_video(host, tail, url);
    if id.len() == 0 {
        return None;
    }
    let ids: String = text::string(&id);
    Some(
        EmbedFrame {
            src: text::cat("https://www.youtube.com/embed/", ids.as_str()),
            title: "YouTube video".to_owned(),
            provider_class: "embed-youtube",
        },
    )
}

/// The Spotify player for a URL.
pub open spec fn spotify_of(url: Seq<char>) -> Option<FrameModel> {
    match without_scheme(url) {
        Some(rest) => spotify_frame(unicode::lowercase(host_part(rest)), tail_part(rest)),
        None => None,
    }
}

/// The YouTube player for a URL.
pub open spec fn youtube_of(url: Seq<char>) -> Option<FrameModel> {
    match without_scheme(url) {
        Some(rest) => youtube_frame(unicode::lowercase(host_part(rest)), tail_part(rest), url),
        None => None,
    }
}

fn scheme_less(url: &Vec<char>) -> (r: Option<Vec<char>>)
    ensures
        match r {
            Some(v) => without_scheme(url@) == Some(v@),
            None => without_scheme(url@) is None,
        },
{
    match text::without_prefix(url, "https://") {
        Some(r) => Some(r),
        None => text::without_prefix(url, "http://"),
    }
}

fn tail_of(rest: &Vec<char>) -> (r: Vec<char>)
    ensures
        r@ == tail_part(rest@),
{
    match text::split_at_first(rest, '/') {
        Some((_, t)) => t,
        None => nothing(),
    }
}

/// The Spotify player for a URL.
pub fn spotify_embed_src(url: &Vec<char>) -> (r: Option<EmbedFrame>)
    ensures
        match r {
            Some(f) => spotify_of(url@) == Some(f@),
            None => spotify_of(url@) is None,
        },
{
    match scheme_less(url) {
        Some(rest) => {
            let host: String = text::string(&text::upto(&rest, '/'));
            let lower: String = unicode::to_lowercase(host.as_str());
            spotify_frame_for(lower.as_str(), &tail_of(&rest))
        },
        None => None,
    }
}

/// The YouTube player for a URL.
pub fn youtube_embed_src(url: &Vec<char>) -> (r: Option<EmbedFrame>)
    ensures
        match r {
            Some(f) => youtube_of(url@) == Some(f@),
            None => youtube_of(url@) is None,
        },
{
    match scheme_less(url) {
        Some(rest) => {
            let host: String = text::string(&text::upto(&rest, '/'));
            let lower: String = unicode::to_lowercase(host.as_str());
            youtube_frame_for(lower.as_str(), &tail_of(&rest), url)
        },
        None => None,
    }
}

/// A word of running text without the punctuation around it.
pub open spec fn bare_token(word: Seq<char>) -> Seq<char> {
    text::trim_set_end(
        text::trim_set_end(text::trim_set_start(word, "([{\"'"@), "([{\"'"@),
        ".,;:!?)]}\"'"@,
    )
}

/// The player for a word of running text: Spotify's, or else YouTube's.
pub open spec fn word_frame(word: Seq<char>) -> Option<FrameModel> {
    let t = bare_token(word);
    match spotify_of(t) {
        Some(f) => Some(f),
        None => youtube_of(t),
    }
}

/// Whether a list of frames shows a source.
pub open spec fn shows(frames: Seq<FrameModel>, src: Seq<char>) -> bool {
    exists|i: int| 0 <= i < frames.len() && (#[trigger] frames[i]).src == src
}

/// The players for the words of a text, each source once, in the order of the words.
pub open spec fn frames_of(words: Seq<Seq<char>>) -> Seq<FrameModel>
    decreases words.len(),
{
    if words.len() == 0 {
        Seq::empty()
    } else {
        let front = frames_of(words.drop_last());
        match word_frame(words.last()) {
            Some(f) => if shows(front, f.src) {
                front
            } else {
                front.push(f)
            },
            None => front,
        }
    }
}

fn frame_for_word(word: &str) -> (r: Option<EmbedFrame>)
    ensures
        match r {
            Some(f) => word_frame(word@) == Some(f@),
            None => word_frame(word@) is None,
        },
{
    let w: Vec<char> = text::chars(word);
    let a: Vec<char> = text::without_trailing_set(&text::without_leading_set(&w, "([{\"'"), "([{\"'");
    let t: Vec<char> = text::without_trailing_set(&a, ".,;:!?)]}\"'");
    match spotify_embed_src(&t) {
        Some(f) => Some(f),
        None => youtube_embed_src(&t),
    }
}

fn is_shown(frames: &Vec<EmbedFrame>, src: &str) -> (r: bool)
    ensures
        r == shows(crate::state::rows(frames@), src@),
{
    let ghost fs = crate::state::rows(frames@);
    let mut i: usize = 0;
    while i < frames.len()
        invariant
            i <= frames.len(),
            fs == crate::state::rows(frames@),
            forall|j: int| 0 <= j < i ==> (#[trigger] fs[j]).src != src@,
        decreases frames.len() - i,
    {
        if text::same(frames[i].src.as_str(), src) {
            assert(fs[i as int].src == src@);
            return true;
        }
        assert(fs[i as int].src != src@);
        i = i + 1;
    }
    false
}

/// The media players for the links of a text, each source once.
pub fn extract_embed_frames(raw: &str) -> (r: Vec<EmbedFrame>)
    ensures
        crate::state::rows(r@) == frames_of(text::words(raw@)),
{
    let words: Vec<String> = text::split_words(&text::chars(raw));
    let ghost ws = text::words(raw@);
    let mut out: Vec<EmbedFrame> = Vec::new();
    let mut i: usize = 0;
    assert(crate::state::rows(out@) =~= frames_of(ws.take(0)));
    while i < words.len()
        invariant
            i <= words.len(),
            ws == text::views(words@),
            crate::state::rows(out@) == frames_of(ws.take(i as int)),
        decreases words.len() - i,
    {
        assert(ws.take(i + 1).drop_last() =~= ws.take(i as int));
        assert(ws.take(i + 1).last() == words@[i as int]@);
        match frame_for_word(words[i].as_str()) {
            Some(f) => {
                if !is_shown(&out, f.src.as_str()) {
                    proof {
                        crate::state::lemma_rows_push(out@, f);
                    }
                    out.push(f);
                }
            },
            None => {},
        }
        i = i + 1;
    }
    assert(ws.take(ws.len() as int) =~= ws);
    out
}

/// No two players of a text show the same source.
pub proof fn law_frames_are_distinct(words: Seq<Seq<char>>)
    ensures
        forall|i: int, j: int|
            0 <= i < j < frames_of(words).len() ==> (#[trigger] frames_of(words)[i]).src != (
            #[trigger] frames_of(words)[j]).src,
    decreases words.len(),
{
    if words.len() > 0 {
        law_frames_are_distinct(words.drop_last());
        let front = frames_of(words.drop_last());
        let all = frames_of(words);
        assert forall|i: int, j: int| 0 <= i < j < all.len() implies (#[trigger] all[i]).src != (
        #[trigger] all[j]).src by {
            assert(all[i] == front[i]);
            if j < front.len() {
                assert(all[j] == front[j]);
            }
        }
    }
}

/// Whether a text is made of the characters of media ids.
pub open spec fn is_media_id(s: Seq<char>) -> bool {
    s.len() > 0 && forall|i: int|
        0 <= i < s.len() ==> {
            let c = #[trigger] s[i];
            'a' <= c <= 'z' || 'A' <= c <= 'Z' || '0' <= c <= '9' || c == '-' || c == '_'
        }
}

/// A media id reaches as far as ASCII letters, digits, hyphens and underscores do.
pub proof fn law_media_ids(id: Seq<char>, rest: Seq<char>)
    requires
        is_media_id(id),
        rest.len() > 0 ==> {
            let c = rest[0];
            !('a' <= c <= 'z' || 'A' <= c <= 'Z' || '0' <= c <= '9' || c == '-' || c == '_')
        },
    ensures
        media_id(id + rest) == id,
        media_id(id) == id,
{
    lemma_media_id(id, rest);
    lemma_media_id(id, Seq::empty());
    assert(id + Seq::<char>::empty() =~= id);
}

proof fn lemma_media_id(id: Seq<char>, rest: Seq<char>)
    requires
        forall|i: int|
            0 <= i < id.len() ==> {
                let c = #[trigger] id[i];
                'a' <= c <= 'z' || 'A' <= c <= 'Z' || '0' <= c <= '9' || c == '-' || c == '_'
            },
        rest.len() > 0 ==> {
            let c = rest[0];
            !('a' <= c <= 'z' || 'A' <= c <= 'Z' || '0' <= c <= '9' || c == '-' || c == '_')
        },
    ensures
        media_id(id + rest) == id,
    decreases id.len(),
{
    let s = id + rest;
    if id.len() > 0 {
        assert(s[0] == id[0]);
        assert(s.skip(1) =~= id.skip(1) + rest);
        assert forall|i: int| 0 <= i < id.skip(1).len() implies {
            let c = #[trigger] id.skip(1)[i];
            'a' <= c <= 'z' || 'A' <= c <= 'Z' || '0' <= c <= '9' || c == '-' || c == '_'
        } by {
            assert(id.skip(1)[i] == id[i + 1]);
        }
        lemma_media_id(id.skip(1), rest);
        assert(seq![id[0]] + id.skip(1) =~= id);
    } else {
        assert(s =~= rest);
        assert(media_id(s) =~= id);
    }
}

proof fn lemma_before_first(a: Seq<char>, c: char, b: Seq<char>)
    requires
        !a.contains(c),
    ensures
        text::before(a, c) == a,
        text::before(a.push(c) + b, c) == a,
        text::split_once(a.push(c) + b, c) == Some((a, b)),
        text::split_once(a, c) is None,
{
    text::lemma_find(a, seq![c], 0);
    match text::find(a, seq![c], 0) {
        Some(i) => {
            assert(a.subrange(i, i + 1)[0] == c);
            assert(a.contains(c));
        },
        None => {},
    }
    let s = a.push(c) + b;
    let at = a.len() as int;
    text::lemma_find(s, seq![c], 0);
    assert(s.subrange(at, at + 1) =~= seq![c]);
    assert(text::occurs_at(s, seq![c], at));
    let i = text::find(s, seq![c], 0).unwrap();
    if i < at {
        assert(s.subrange(i, i + 1)[0] == c);
        assert(a[i] == c);
        assert(a.contains(c));
    }
    assert(s.take(at) =~= a);
    assert(s.skip(at + 1) =~= b);
}

proof fn lemma_id_has_no(id: Seq<char>, c: char)
    requires
        is_media_id(id),
        c == '/' || c == '?' || c == '#' || c == '&' || c == '=',
    ensures
        !id.contains(c),
{
    if id.contains(c) {
        let i = choose|i: int| 0 <= i < id.len() && id[i] == c;
        assert(id[i] == c);
    }
}

/// A short link, a watch link, a shorts link and an embed link of YouTube all play the video
/// whose id they name.
#[verifier::rlimit(50)]
pub proof fn law_youtube_players(id: Seq<char>, url: Seq<char>)
    requires
        is_media_id(id),
        query_value(url, "v"@) == Some(id),
    ensures
        ({
            let player = Some(
                FrameModel {
                    src: "https://www.youtube.com/embed/"@ + id,
                    title: "YouTube video"@,
                    class: "embed-youtube"@,
                },
            );
            &&& youtube_frame("youtu.be"@, id, url) == player
            &&& youtube_frame("www.youtube.com"@, "watch"@, url) == player
            &&& youtube_frame("youtube.com"@, "shorts/"@ + id, url) == player
            &&& youtube_frame("m.youtube.com"@, "embed/"@ + id, url) == player
        }),
        youtube_frame("example.com"@, id, url) is None,
{
    reveal_strlit("youtu.be");
    reveal_strlit("www.youtu.be");
    reveal_strlit("youtube.com");
    reveal_strlit("www.youtube.com");
    reveal_strlit("m.youtube.com");
    reveal_strlit("music.youtube.com");
    reveal_strlit("example.com");
    reveal_strlit("/");
    reveal_strlit("watch");
    reveal_strlit("/watch");
    reveal_strlit("shorts/");
    reveal_strlit("/shorts/");
    reveal_strlit("embed/");
    reveal_strlit("/embed/");
    let none = Seq::<char>::empty();
    law_media_ids(id, none);
    lemma_id_has_no(id, '?');
    lemma_id_has_no(id, '#');
    lemma_id_has_no(id, '/');
    lemma_before_first(id, '?', none);
    lemma_before_first(id, '#', none);
    lemma_before_first(id, '/', none);
    assert(id[0] != '/' && id.last() != '/') by {
        assert(id.contains(id[0]) && id.contains(id.last()));
    }
    assert("youtu.be"@.len() == 8 && "www.youtu.be"@.len() == 12 && "youtube.com"@.len() == 11
        && "www.youtube.com"@.len() == 15 && "m.youtube.com"@.len() == 13
        && "music.youtube.com"@.len() == 17 && "example.com"@.len() == 11);
    assert("youtube.com"@[0] == 'y' && "example.com"@[0] == 'e');
    let w = "watch"@;
    assert(!w.contains('#'));
    lemma_before_first(w, '#', none);
    let wp = "/"@ + w;
    assert(wp =~= "/watch"@);
    assert(wp.subrange(0, 6) =~= "/watch"@);
    let st = "shorts/"@ + id;
    assert forall|i: int| 0 <= i < st.len() implies st[i] != '#' by {
        if i >= 7 {
            assert(st[i] == id[i - 7]);
            assert(id.contains(id[i - 7]));
        }
    }
    lemma_before_first(st, '#', none);
    let sp = "/"@ + st;
    assert(sp =~= "/shorts/"@ + id);
    assert(sp.subrange(0, 8) =~= "/shorts/"@);
    assert(sp.skip(8) =~= id);
    if text::has_prefix(sp, "/watch"@) {
        assert(sp.subrange(0, 6)[1] == 'w');
    }
    let et = "embed/"@ + id;
    assert forall|i: int| 0 <= i < et.len() implies et[i] != '#' by {
        if i >= 6 {
            assert(et[i] == id[i - 6]);
            assert(id.contains(id[i - 6]));
        }
    }
    lemma_before_first(et, '#', none);
    let ep = "/"@ + et;
    assert(ep =~= "/embed/"@ + id);
    assert(ep.subrange(0, 7) =~= "/embed/"@);
    assert(ep.skip(7) =~= id);
    if text::has_prefix(ep, "/watch"@) {
        assert(ep.subrange(0, 6)[1] == 'w');
    }
    if text::has_prefix(ep, "/shorts/"@) {
        assert(ep.subrange(0, 8)[1] == 's');
    }
}

/// The value of a parameter is that of the first pair with its name.
pub proof fn law_query_values(front: Seq<char>, name: Seq<char>, value: Seq<char>, rest: Seq<char>)
    requires
        !front.contains('?'),
        !name.contains('='),
        !name.contains('&'),
        !value.contains('&'),
    ensures
        query_value(front, name) is None,
        query_value(front.push('?') + (name.push('=') + value), name) == Some(value),
        query_value(front.push('?') + ((name.push('=') + value).push('&') + rest), name) == Some(value),
{
    let pair = name.push('=') + value;
    assert forall|i: int| 0 <= i < pair.len() implies pair[i] != '&' by {
        if i < name.len() {
            assert(pair[i] == name[i]);
            assert(name.contains(name[i]));
        } else if i > name.len() {
            assert(pair[i] == value[i - name.len() - 1]);
            assert(value.contains(value[i - name.len() - 1]));
        }
    }
    lemma_before_first(front, '?', pair);
    lemma_before_first(front, '?', pair.push('&') + rest);
    lemma_before_first(name, '=', value);
    text::law_split(pair, rest, '&');
    let one = text::split(pair, '&');
    assert(one[0] == pair);
    assert(first_value(one, name, 0) == Some(value));
    let many = text::split(pair.push('&') + rest, '&');
    assert(many[0] == pair);
    assert(first_value(many, name, 0) == Some(value));
}

/// A track, an album, a playlist, an episode or a show of Spotify is played by its kind and id.
#[verifier::rlimit(50)]
pub proof fn law_spotify_players(kind: Seq<char>, id: Seq<char>)
    requires
        is_media_id(id),
        kind == "track"@ || kind == "album"@ || kind == "playlist"@ || kind == "episode"@ || kind
            == "show"@,
    ensures
        spotify_frame("open.spotify.com"@, kind + "/"@ + id) == Some(
            FrameModel {
                src: "https://open.spotify.com/embed/"@ + kind + "/"@ + id,
                title: "Spotify "@ + kind,
                class: "embed-spotify"@,
            },
        ),
        spotify_frame("example.com"@, kind + "/"@ + id) is None,
{
    reveal_strlit("track");
    reveal_strlit("album");
    reveal_strlit("playlist");
    reveal_strlit("episode");
    reveal_strlit("show");
    reveal_strlit("/");
    reveal_strlit("intl-");
    reveal_strlit("open.spotify.com");
    reveal_strlit("www.open.spotify.com");
    reveal_strlit("example.com");
    assert("example.com"@.len() == 11 && "open.spotify.com"@.len() == 16
        && "www.open.spotify.com"@.len() == 20);
    let none = Seq::<char>::empty();
    law_media_ids(id, none);
    lemma_id_has_no(id, '?');
    lemma_id_has_no(id, '#');
    lemma_id_has_no(id, '/');
    let t = kind + "/"@ + id;
    assert forall|i: int| 0 <= i < t.len() implies t[i] != '#' && t[i] != '?' by {
        if i > kind.len() {
            assert(t[i] == id[i - kind.len() - 1]);
            assert(id.contains(id[i - kind.len() - 1]));
        }
    }
    lemma_before_first(t, '#', none);
    lemma_before_first(t, '?', none);
    assert(!kind.contains('/'));
    assert(t =~= kind.push('/') + id);
    text::law_split(kind, id, '/');
    text::law_split(id, id, '/');
    let parts = text::split(t, '/');
    assert(parts =~= seq![kind, id]);
    assert(parts.drop_last() =~= seq![kind]);
    assert(seq![kind].drop_last() =~= Seq::empty());
    assert(text::nonempty(seq![kind].drop_last()) =~= Seq::empty());
    assert(seq![kind].last() == kind);
    assert(text::nonempty(seq![kind]) =~= seq![kind]);
    assert(text::nonempty(parts) =~= seq![kind, id]);
    if text::has_prefix(kind, "intl-"@) {
        assert(kind.subrange(0, 5)[0] == 'i');
    }
}

/// The players of a text are those of its words, in the order of the words; every word that has
/// one is played, and nothing else is.
pub proof fn law_players_of_a_text(words: Seq<Seq<char>>, f: FrameModel)
    ensures
        frames_of(words).contains(f) ==> exists|i: int|
            0 <= i < words.len() && word_frame(#[trigger] words[i]) == Some(f),
        forall|i: int|
            0 <= i < words.len() ==> match word_frame(#[trigger] words[i]) {
                Some(g) => shows(frames_of(words), g.src),
                None => true,
            },
    decreases words.len(),
{
    if words.len() > 0 {
        let rest = words.drop_last();
        law_players_of_a_text(rest, f);
        let front = frames_of(rest);
        let all = frames_of(words);
        let last = words.len() - 1;
        if all.contains(f) {
            let k = choose|k: int| 0 <= k < all.len() && all[k] == f;
            if k < front.len() {
                assert(front[k] == f);
                assert(front.contains(f));
                let i = choose|i: int|
                    0 <= i < rest.len() && word_frame(#[trigger] rest[i]) == Some(f);
                assert(words[i] == rest[i]);
            } else {
                assert(word_frame(words[last]) == Some(f));
            }
        }
        assert forall|i: int| 0 <= i < words.len() implies match word_frame(#[trigger] words[i]) {
            Some(g) => shows(all, g.src),
            None => true,
        } by {
            match word_frame(words[i]) {
                Some(g) => {
                    if i < last {
                        assert(rest[i] == words[i]);
                        let k = choose|k: int|
                            0 <= k < front.len() && (#[trigger] front[k]).src == g.src;
                        assert(all[k].src == g.src);
                    } else if !shows(front, g.src) {
                        assert(all[all.len() - 1].src == g.src);
                    }
                },
                None => {},
            }
        }
    }
}

/// A post is by a person, or by the agent that wrote for them: an account of x.com by its handle,
/// any other agent by eight characters of its id, its rig and its model.
pub proof fn law_authors(p: Seq<char>, d: Seq<char>)
    ensures
        authorship(p, None) == "@"@ + p,
        authorship(p, Some(d)) == "@@"@ + agent_label(d),
        ({
            let parts = text::split(text::trim(d), ':');
            &&& parts.len() < 3 ==> agent_label(d) == text::trim(d)
            &&& parts.len() >= 3 && text::trim(parts[1]) == "x.com"@ ==> agent_label(d) == "@"@
                + text::trim(parts[2])
            &&& parts.len() >= 3 && text::trim(parts[1]) != "x.com"@ && text::trim(parts[0]).len() >= 8
                && text::trim(parts[1]).len() > 0 && text::trim(parts[2]).len() > 0 ==> agent_label(d)
                == text::trim(parts[0]).take(8) + ":"@ + text::trim(parts[1]) + ":"@ + text::trim(
                parts[2],
            )
        }),
{
    let parts = text::split(text::trim(d), ':');
    if parts.len() >= 3 && text::trim(parts[0]).len() == 8 {
        assert(text::trim(parts[0]).take(8) =~= text::trim(parts[0]));
    }
}

/// A link is played by its host, in whatever case that is written, and by what follows it; only
/// links of the web are.
pub proof fn law_links_are_played_by_their_host(host: Seq<char>, tail: Seq<char>)
    requires
        !host.contains('/'),
    ensures
        youtube_of("https://"@ + host + "/"@ + tail) == youtube_frame(
            unicode::lowercase(host),
            tail,
            "https://"@ + host + "/"@ + tail,
        ),
        spotify_of("https://"@ + host + "/"@ + tail) == spotify_frame(unicode::lowercase(host), tail),
        spotify_of("http://"@ + host + "/"@ + tail) == spotify_frame(unicode::lowercase(host), tail),
{
    reveal_strlit("/");
    reveal_strlit("https://");
    reveal_strlit("http://");
    let rest = host + "/"@ + tail;
    assert(rest =~= host.push('/') + tail);
    text::law_split_once(host, '/', tail);
    text::law_strip("https://"@, rest);
    text::law_strip("http://"@, rest);
    let a = "https://"@ + host + "/"@ + tail;
    assert(a =~= "https://"@ + rest);
    let b = "http://"@ + host + "/"@ + tail;
    assert(b =~= "http://"@ + rest);
    if text::has_prefix(b, "https://"@) {
        assert(b.subrange(0, 8)[4] == 's');
    }
}

/// The punctuation around a link is no part of it.
#[verifier::rlimit(50)]
pub proof fn law_punctuation_around_links(w: Seq<char>)
    requires
        w.len() > 0,
        'a' <= w[0] <= 'z',
        'a' <= w.last() <= 'z' || '0' <= w.last() <= '9',
    ensures
        bare_token(w) == w,
        bare_token(seq!['('] + w + seq![')']) == w,
        bare_token(w + seq!['.']) == w,
        bare_token(w + seq![',']) == w,
        word_frame(seq!['('] + w + seq![')']) == word_frame(w),
{
    reveal_strlit("([{\"'");
    reveal_strlit(".,;:!?)]}\"'");
    let open = "([{\"'"@;
    let close = ".,;:!?)]}\"'"@;
    let none = Seq::<char>::empty();
    assert(!open.contains(w[0]) && !open.contains(w.last()) && !close.contains(w[0])
        && !close.contains(w.last()));
    text::law_trim_set(none, w, open);
    text::law_trim_set(none, w, close);
    assert(none + w =~= w);
    assert(w + none =~= w);
    assert(open[0] == '(');
    assert(open.contains('('));
    let p = seq!['('];
    let a = w + seq![')'];
    assert(a[0] == w[0] && a.last() == ')');
    assert(!open.contains(')'));
    assert(p + w + seq![')'] =~= p + a);
    text::law_trim_set(p, a, open);
    text::law_trim_set(none, a, open);
    assert(none + a =~= a);
    assert(a + none =~= a);
    assert(close[6] == ')');
    assert(close.contains(')'));
    text::law_trim_set(seq![')'], w, close);
    let b = w + seq!['.'];
    assert(b[0] == w[0] && b.last() == '.');
    assert(!open.contains('.'));
    text::law_trim_set(none, b, open);
    assert(none + b =~= b);
    assert(b + none =~= b);
    assert(close[0] == '.');
    assert(close.contains('.'));
    text::law_trim_set(seq!['.'], w, close);
    let c = w + seq![','];
    assert(c[0] == w[0] && c.last() == ',');
    assert(!open.contains(','));
    text::law_trim_set(none, c, open);
    assert(none + c =~= c);
    assert(c + none =~= c);
    assert(close[1] == ',');
    assert(close.contains(','));
    text::law_trim_set(seq![','], w, close);
}

/// Ages are told in whole seconds: a thousand milliseconds later a time is one second older.
pub proof fn law_ages(now: int, ts: int)
    requires
        ts <= now,
        now - ts <= i64::MAX - 1000,
    ensures
        age_seconds(ts, ts) == 0,
        age_seconds(now + 1000, ts) == age_seconds(now, ts) + 1,
        1000 * age_seconds(now, ts) <= now - ts < 1000 * (age_seconds(now, ts) + 1),
{
}

} // verus!
