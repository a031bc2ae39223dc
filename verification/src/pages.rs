//! Small decisions of single pages: themes, the trail of the forum, and the connector brief.

use vstd::prelude::*;

use crate::text;

verus! {

/// A style sheet.
#[derive(Clone, Copy, Debug, PartialEq, Eq, Structural)]
pub enum Theme {
    Default,
    Retro,
    RetroCraft,
}

/// The style sheet that a file name asks for.
pub open spec fn theme_of(filename: Seq<char>) -> Option<Theme> {
    match text::strip_prefix(filename, "theme_"@) {
        Some(rest) => match text::strip_suffix(rest, ".css"@) {
            Some(name) => if name == "default"@ {
                Some(Theme::Default)
            } else if name == "retro"@ {
                Some(Theme::Retro)
            } else if name == "retro_craft"@ {
                Some(Theme::RetroCraft)
            } else {
                None
            },
            None => None,
        },
        None => None,
    }
}

/// The style sheet that a file name asks for; none for any other name.
pub fn theme_for_file(filename: &str) -> (r: Option<Theme>)
    ensures
        r == theme_of(filename@),
{
    match text::without_prefix(&text::chars(filename), "theme_") {
        Some(rest) => match text::without_suffix(&rest, ".css") {
            Some(name) => if text::same_chars(&name, &text::chars("default")) {
                Some(Theme::Default)
            } else if text::same_chars(&name, &text::chars("retro")) {
                Some(Theme::Retro)
            } else if text::same_chars(&name, &text::chars("retro_craft")) {
                Some(Theme::RetroCraft)
            } else {
                None
            },
            None => None,
        },
        None => None,
    }
}

/// The trail of a thread page: where the link home leads, and the thread behind it.
pub struct ThreadTrail {
    pub home_href: &'static str,
    pub home_current: bool,
    pub thread: Option<(String, String)>,
}

/// The trail of the forum: at its root the link home leads to the garden.
pub fn bc_threads(thread_tag: Option<&str>) -> (r: ThreadTrail)
    ensures
        r.home_href@ == if thread_tag is Some {
            "/"@
        } else {
            "/~"@
        },
        r.home_current == (thread_tag is None),
        match thread_tag {
            Some(tag) => match r.thread {
                Some((label, href)) => label@ == "#"@ + tag@ && href@ == "/t/"@ + tag@,
                None => false,
            },
            None => r.thread is None,
        },
{
    match thread_tag {
        Some(tag) => ThreadTrail {
            home_href: "/",
            home_current: false,
            thread: Some((text::cat("#", tag), text::cat("/t/", tag))),
        },
        None => ThreadTrail { home_href: "/~", home_current: true, thread: None },
    }
}

/// The links of the connector page.
pub struct ConnectorLinks {
    pub base: String,
    pub openapi: String,
    pub docs: String,
    pub status: String,
    pub whoami: String,
}

/// The links of the connector page under a public URL.
pub fn connector_links(public_url: &str) -> (r: ConnectorLinks)
    ensures
        r.base@ == public_url@ + "/muse/v1"@,
        r.openapi@ == r.base@ + "/openapi.json"@,
        r.docs@ == r.base@ + "/docs.md"@,
        r.status@ == r.base@ + "/status"@,
        r.whoami@ == r.base@ + "/whoami"@,
{
    let base: String = text::cat(public_url, "/muse/v1");
    ConnectorLinks {
        openapi: text::cat(base.as_str(), "/openapi.json"),
        docs: text::cat(base.as_str(), "/docs.md"),
        status: text::cat(base.as_str(), "/status"),
        whoami: text::cat(base.as_str(), "/whoami"),
        base,
    }
}

/// A style sheet is asked for by the name between `theme_` and `.css`; there are three of them.
pub proof fn law_themes(name: Seq<char>)
    ensures
        theme_of("theme_"@ + name + ".css"@) == if name == "default"@ {
            Some(Theme::Default)
        } else if name == "retro"@ {
            Some(Theme::Retro)
        } else if name == "retro_craft"@ {
            Some(Theme::RetroCraft)
        } else {
            None
        },
{
    lemma_theme(name);
}

proof fn lemma_theme(name: Seq<char>)
    ensures
        text::strip_prefix("theme_"@ + name + ".css"@, "theme_"@) == Some(name + ".css"@),
        text::strip_suffix(name + ".css"@, ".css"@) == Some(name),
{
    reveal_strlit("theme_");
    reveal_strlit(".css");
    let f = "theme_"@ + name + ".css"@;
    assert(f.subrange(0, 6) =~= "theme_"@);
    assert(f.skip(6) =~= name + ".css"@);
    let r = name + ".css"@;
    let at = r.len() - 4;
    assert(r.subrange(at, at + 4) =~= ".css"@);
    assert(r.take(at) =~= name);
}

} // verus!
