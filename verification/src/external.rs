//! Items outside the ontology: their source pages, previews and resolvers.

use vstd::prelude::*;

use crate::garden;
use crate::outside::{self, UrlModel, UrlParts};
use crate::paths::{self, ItemId};
use crate::text;

verus! {

/// The video that a YouTube URL of the form `/watch/v/<id>` names.
pub open spec fn watch_id(u: UrlModel) -> Option<Seq<char>> {
    match (u.host, u.segments) {
        (Some(h), Some(s)) => if text::lower_ascii(h) == "www.youtube.com"@ && s.len() == 3 && s[0]
            == "watch"@ && s[1] == "v"@ {
            Some(s[2])
        } else {
            None
        },
        _ => None,
    }
}

/// Where the source page of an item is found, given what its URL consists of.
pub enum SourcePage {
    /// At the item itself.
    Item,
    /// At the page that plays a video.
    Watch(String),
    /// At a page whose URL lies beyond 32 bits.
    TooLong,
}

/// The mathematical value of a [`SourcePage`].
pub enum SourceModel {
    Item,
    Watch(Seq<char>),
    TooLong,
}

impl View for SourcePage {
    type V = SourceModel;

    open spec fn view(&self) -> SourceModel {
        match *self {
            SourcePage::Item => SourceModel::Item,
            SourcePage::Watch(id) => SourceModel::Watch(id@),
            SourcePage::TooLong => SourceModel::TooLong,
        }
    }
}

/// Where the source page of an item is found: an identity path of a YouTube video leads to the
/// page that plays it, anything else to itself.
pub open spec fn source_page(parts: Option<UrlModel>) -> SourceModel {
    match parts {
        Some(u) => match watch_id(u) {
            Some(id) => if outside::rewritable(u, "/watch"@, seq![("v"@, id)]) {
                SourceModel::Watch(id)
            } else {
                SourceModel::TooLong
            },
            None => SourceModel::Item,
        },
        None => SourceModel::Item,
    }
}

/// The URL of the source page of an item, none where that lies beyond 32 bits.
pub open spec fn source_of(item: Seq<char>, page: SourceModel) -> Option<Seq<char>> {
    match page {
        SourceModel::Item => Some(item),
        SourceModel::Watch(id) => match outside::url_at_path_with_pairs(
            item,
            "/watch"@,
            seq![("v"@, id)],
        ) {
            Some(s) => Some(s),
            None => Some(item),
        },
        SourceModel::TooLong => None,
    }
}

/// The view of optional parts.
pub open spec fn opt_parts(p: Option<UrlParts>) -> Option<UrlModel> {
    match p {
        Some(u) => Some(u@),
        None => None,
    }
}

fn video_of(u: &UrlParts) -> (r: Option<String>)
    ensures
        text::opt_view(r) == watch_id(u@),
{
    let host: &String = match &u.host {
        Some(h) => h,
        None => {
            return None;
        },
    };
    let segments: &Vec<String> = match &u.segments {
        Some(s) => s,
        None => {
            return None;
        },
    };
    let lowered: Vec<char> = text::lowered_ascii(&text::chars(host.as_str()));
    assert(text::views(segments@).len() == segments@.len());
    if text::same_chars(&lowered, &text::chars("www.youtube.com")) && segments.len() == 3 {
        assert(text::views(segments@)[0] == segments@[0]@);
        assert(text::views(segments@)[1] == segments@[1]@);
        assert(text::views(segments@)[2] == segments@[2]@);
        if text::same(segments[0].as_str(), "watch") && text::same(segments[1].as_str(), "v") {
            return Some(segments[2].clone());
        }
    }
    None
}

fn video_pairs(id: &str) -> (r: Vec<(String, String)>)
    ensures
        outside::pair_views(r@) == seq![("v"@, id@)],
        r@.len() == 1,
{
    let mut pairs: Vec<(String, String)> = Vec::new();
    pairs.push(("v".to_owned(), id.to_owned()));
    assert(outside::pair_views(pairs@) =~= seq![("v"@, id@)]);
    pairs
}

/// Where the source page of an item is found, given what its URL consists of.
pub fn source_page_for(parts: &Option<UrlParts>) -> (r: SourcePage)
    ensures
        r@ == source_page(opt_parts(*parts)),
{
    match parts {
        Some(u) => match video_of(u) {
            Some(id) => if outside::can_rewrite(u, "/watch", &video_pairs(id.as_str())) {
                SourcePage::Watch(id)
            } else {
                SourcePage::TooLong
            },
            None => SourcePage::Item,
        },
        None => SourcePage::Item,
    }
}

/// The path of a video starts with `/watch`.
proof fn lemma_watch_path(u: UrlModel)
    requires
        u.segments == outside::path_pieces(u.path),
        watch_id(u) is Some,
    ensures
        outside::begins_path(u, "/watch"@),
{
    reveal_strlit("/");
    reveal_strlit("watch");
    reveal_strlit("/watch");
    assert("/"@ =~= seq!['/']);
    let t = u.path.skip(1);
    let segs = text::split(t, '/');
    text::law_split_join(t, '/');
    let front = segs.drop_last();
    let first = front.drop_last();
    assert(text::join(first, "/"@) == segs[0]);
    assert(text::join(front, "/"@) == segs[0] + "/"@ + segs[1]);
    assert(text::join(segs, "/"@) == segs[0] + "/"@ + segs[1] + "/"@ + segs[2]);
    assert(u.path.subrange(0, 1) == "/"@);
    assert(u.path[0] == u.path.subrange(0, 1)[0]);
    assert forall|i: int| 0 <= i < 5 implies u.path[i + 1] == "watch"@[i] by {
        assert(t[i] == segs[0][i]);
    }
    assert(u.path.subrange(0, 6) =~= "/watch"@) by {
        assert forall|i: int| 0 <= i < 6 implies u.path[i] == "/watch"@[i] by {
            if i > 0 {
                assert(u.path[(i - 1) + 1] == "watch"@[i - 1]);
            }
        }
    }
}

/// The source page of an item; none where its URL lies beyond the 32 bits in which a URL that is
/// rewritten keeps its places.
pub fn external_source_href(item: &str) -> (r: Option<String>)
    ensures
        text::opt_view(r) == source_of(item@, source_page(outside::parsed(item@))),
{
    let parts: Option<UrlParts> = outside::read_url(item);
    match source_page_for(&parts) {
        SourcePage::Item => Some(item.to_owned()),
        SourcePage::TooLong => None,
        SourcePage::Watch(id) => {
            proof {
                lemma_watch_path(parts.unwrap()@);
            }
            match outside::set_url_path_and_pairs(item, "/watch", &video_pairs(id.as_str())) {
                Some(s) => Some(s),
                None => Some(item.to_owned()),
            }
        },
    }
}

/// Whether a host may be shown in a frame: any but GitHub; no frame for what is no URL.
pub open spec fn frame_allowed(parts: Option<UrlModel>) -> bool {
    match parts {
        Some(u) => u.host != Some("github.com"@) && u.host != Some("www.github.com"@),
        None => false,
    }
}

/// Whether the page of given parts may be shown in a frame.
pub fn frame_allowed_for(parts: &Option<UrlParts>) -> (r: bool)
    ensures
        r == frame_allowed(opt_parts(*parts)),
{
    match parts {
        Some(u) => match &u.host {
            Some(h) => !text::same(h.as_str(), "github.com") && !text::same(
                h.as_str(),
                "www.github.com",
            ),
            None => true,
        },
        None => false,
    }
}

/// Whether the source page of an item may be shown in a frame.
pub fn external_frame_allowed(item: &str) -> (r: bool)
    ensures
        r == frame_allowed(outside::parsed(item@)),
{
    let parts: Option<UrlParts> = outside::read_url(item);
    frame_allowed_for(&parts)
}

// ---------------------------------------------------------------------------
// Resolvers
// ---------------------------------------------------------------------------

/// A resolver for the items of a site.
pub trait ExternalResolver {
    /// The site, by its domain.
    spec fn domain(&self) -> Seq<char>;

    /// The one spelling of a path of the site.
    spec fn normal_form(&self, path: Seq<char>) -> Seq<char>;

    /// The domain of the site, such as `github.com`.
    fn domain_match(&self) -> (r: &'static str)
        ensures
            r@ == self.domain(),
    ;

    /// Gives a path its one spelling.
    fn normalize(&self, path: &str) -> (r: String)
        ensures
            r@ == self.normal_form(path@),
    ;

    /// Fetches the body of an item.
    fn fetch_body(&self, item: &ItemId) -> (r: Result<String, String>);
}

/// The resolver for sites that have none of their own: it fetches nothing and leaves paths as
/// they are.
pub struct DefaultExternalResolver;

impl ExternalResolver for DefaultExternalResolver {
    open spec fn domain(&self) -> Seq<char> {
        ""@
    }

    open spec fn normal_form(&self, path: Seq<char>) -> Seq<char> {
        path
    }

    fn domain_match(&self) -> (r: &'static str) {
        ""
    }

    fn normalize(&self, path: &str) -> (r: String) {
        path.to_owned()
    }

    fn fetch_body(&self, item: &ItemId) -> (r: Result<String, String>)
        ensures
            match r {
                Ok(_) => false,
                Err(msg) => msg@ == "external fetch not implemented"@,
            },
    {
        Err("external fetch not implemented".to_owned())
    }
}

/// The site whose neighbours can be imported.
#[derive(Clone, Copy, Debug, PartialEq, Eq, Structural)]
pub enum ResolverSite {
    GitHub,
    Arena,
}

/// The resolver for a host.
pub open spec fn site_of(host: Seq<char>) -> Option<ResolverSite> {
    let h = text::lower_ascii(host);
    if h == "github.com"@ {
        Some(ResolverSite::GitHub)
    } else if h == "www.are.na"@ || h == "are.na"@ {
        Some(ResolverSite::Arena)
    } else {
        None
    }
}

/// The resolver for a host.
pub fn resolver_site(host: &str) -> (r: Option<ResolverSite>)
    ensures
        r == site_of(host@),
{
    let h: Vec<char> = text::lowered_ascii(&text::chars(host));
    if text::same_chars(&h, &text::chars("github.com")) {
        Some(ResolverSite::GitHub)
    } else if text::same_chars(&h, &text::chars("www.are.na")) || text::same_chars(
        &h,
        &text::chars("are.na"),
    ) {
        Some(ResolverSite::Arena)
    } else {
        None
    }
}

/// The name of a site.
pub fn site_name(site: ResolverSite) -> (r: &'static str)
    ensures
        r@ == match site {
            ResolverSite::GitHub => "GitHub"@,
            ResolverSite::Arena => "Are.na"@,
        },
{
    match site {
        ResolverSite::GitHub => "GitHub",
        ResolverSite::Arena => "Are.na",
    }
}

/// The prefix of the test ids of a site.
pub fn site_testid(site: ResolverSite) -> (r: &'static str)
    ensures
        r@ == match site {
            ResolverSite::GitHub => "github"@,
            ResolverSite::Arena => "arena"@,
        },
{
    match site {
        ResolverSite::GitHub => "github",
        ResolverSite::Arena => "arena",
    }
}

/// The controls of a resolver: what is resolved, from where, and whether its siblings can be.
pub struct ResolverControls {
    pub item: ItemId,
    pub site: ResolverSite,
    pub siblings: bool,
}

/// The resolver for an item, given what its URL consists of; siblings only on GitHub, where the
/// item has a parent path.
pub open spec fn controls_of(key: Seq<char>, parts: Option<UrlModel>) -> Option<(ResolverSite, bool)> {
    match parts {
        Some(u) => match u.host {
            Some(h) => match site_of(h) {
                Some(site) => Some(
                    (site, site == ResolverSite::GitHub && paths::parent_key(key) is Some),
                ),
                None => None,
            },
            None => None,
        },
        None => None,
    }
}

/// The controls for an item, given what its URL consists of.
pub fn resolver_controls_for(item: &ItemId, parts: &Option<UrlParts>) -> (r: Option<ResolverControls>)
    ensures
        match r {
            Some(c) => c.item@ == item@ && controls_of(item@, opt_parts(*parts)) == Some(
                (c.site, c.siblings),
            ),
            None => controls_of(item@, opt_parts(*parts)) is None,
        },
{
    match parts {
        Some(u) => match &u.host {
            Some(h) => match resolver_site(h.as_str()) {
                Some(site) => {
                    let has_parent: bool = item.parent().is_some();
                    let siblings: bool = match site {
                        ResolverSite::GitHub => has_parent,
                        ResolverSite::Arena => false,
                    };
                    Some(ResolverControls { item: item.copy(), site, siblings })
                },
                None => None,
            },
            None => None,
        },
        None => None,
    }
}

/// The controls for a written item; none where no resolver knows its site.
pub fn external_resolver_controls(item: &str) -> (r: Option<ResolverControls>)
    ensures
        match paths::item_key(item@) {
            None => r is None,
            Some(k) => {
                let key = paths::normal_key(k);
                match r {
                    Some(c) => c.item@ == key && controls_of(key, outside::parsed(key)) == Some(
                        (c.site, c.siblings),
                    ),
                    None => controls_of(key, outside::parsed(key)) is None,
                }
            },
        },
{
    match ItemId::parse(item) {
        None => None,
        Some(k) => {
            let key: ItemId = k.normalized_storage();
            let parts: Option<UrlParts> = outside::read_url(key.as_str());
            resolver_controls_for(&key, &parts)
        },
    }
}

/// What resolving changed.
pub struct ResolveStats {
    pub imported: usize,
    pub deleted: usize,
    pub kept: usize,
}

/// `s` for a number other than one.
pub open spec fn plural(n: nat) -> Seq<char> {
    if n == 1 {
        Seq::empty()
    } else {
        "s"@
    }
}

fn plural_of(n: usize) -> (r: &'static str)
    ensures
        r@ == plural(n as nat),
{
    if n == 1 {
        let none: &'static str = "";
        proof {
            reveal_strlit("");
        }
        assert(none@ =~= Seq::empty());
        none
    } else {
        "s"
    }
}

/// The sentences about what resolving changed.
pub open spec fn status_parts(imported: nat, deleted: nat, kept: nat, source: Seq<char>) -> Seq<Seq<char>> {
    let first = if imported > 0 {
        seq!["Imported "@ + text::decimal(imported) + " "@ + source + " item"@ + plural(imported) + "."@]
    } else {
        Seq::empty()
    };
    let second = if deleted > 0 {
        first.push("Removed "@ + text::decimal(deleted) + " closed/stale item"@ + plural(deleted) + "."@)
    } else {
        first
    };
    if kept > 0 {
        if imported == 0 && deleted == 0 {
            second.push("Already up to date ("@ + text::decimal(kept) + " item"@ + plural(kept) + ")."@)
        } else {
            second.push("Kept "@ + text::decimal(kept) + " current."@)
        }
    } else {
        second
    }
}

/// What the reader is told after resolving.
pub open spec fn status_text(imported: nat, deleted: nat, kept: nat, source: Seq<char>) -> Seq<char> {
    if imported + deleted + kept == 0 {
        "No "@ + source + " children found."@
    } else {
        text::join(status_parts(imported, deleted, kept, source), " "@)
    }
}

/// What the reader is told after resolving.
pub fn resolve_status_text(stats: &ResolveStats, source: &str) -> (r: String)
    ensures
        r@ == status_text(stats.imported as nat, stats.deleted as nat, stats.kept as nat, source@),
{
    if stats.imported == 0 && stats.deleted == 0 && stats.kept == 0 {
        return text::cat3("No ", source, " children found.");
    }
    let mut parts: Vec<String> = Vec::new();
    let ghost mut pv: Seq<Seq<char>> = Seq::empty();
    assert(text::views(parts@) =~= pv);
    if stats.imported > 0 {
        let n: String = text::size(stats.imported);
        let head: String = text::cat5("Imported ", n.as_str(), " ", source, " item");
        let s: String = text::cat3(head.as_str(), plural_of(stats.imported), ".");
        proof {
            pv = pv.push(s@);
        }
        parts.push(s);
        assert(text::views(parts@) =~= pv);
    }
    if stats.deleted > 0 {
        let n: String = text::size(stats.deleted);
        let s: String = text::cat5(
            "Removed ",
            n.as_str(),
            " closed/stale item",
            plural_of(stats.deleted),
            ".",
        );
        proof {
            pv = pv.push(s@);
        }
        parts.push(s);
        assert(text::views(parts@) =~= pv);
    }
    if stats.kept > 0 {
        let n: String = text::size(stats.kept);
        let s: String = if stats.imported == 0 && stats.deleted == 0 {
            text::cat5("Already up to date (", n.as_str(), " item", plural_of(stats.kept), ").")
        } else {
            text::cat3("Kept ", n.as_str(), " current.")
        };
        proof {
            pv = pv.push(s@);
        }
        parts.push(s);
        assert(text::views(parts@) =~= pv);
    }
    assert(pv =~= status_parts(
        stats.imported as nat,
        stats.deleted as nat,
        stats.kept as nat,
        source@,
    ));
    text::joined(&parts, " ")
}

/// The path that the status of a resolver leads back to.
pub fn resolver_next_path(next: &str) -> (r: String)
    ensures
        r@ == garden::safe_next(next@),
{
    garden::path_on_this_site(next)
}

/// Which resolver serves a host, in whatever case it is written.
pub proof fn law_resolvers(host: Seq<char>, key: Seq<char>, u: UrlModel)
    ensures
        text::lower_ascii(host) == "github.com"@ ==> site_of(host) == Some(ResolverSite::GitHub),
        text::lower_ascii(host) == "are.na"@ || text::lower_ascii(host) == "www.are.na"@ ==> site_of(
            host,
        ) == Some(ResolverSite::Arena),
        site_of(host) is Some ==> text::lower_ascii(host) == "github.com"@ || text::lower_ascii(host)
            == "are.na"@ || text::lower_ascii(host) == "www.are.na"@,
        controls_of(key, None) is None,
        u.host is None ==> controls_of(key, Some(u)) is None,
        u.host == Some(host) && site_of(host) == Some(ResolverSite::GitHub) ==> controls_of(
            key,
            Some(u),
        ) == Some((ResolverSite::GitHub, paths::parent_key(key) is Some)),
        u.host == Some(host) && site_of(host) == Some(ResolverSite::Arena) ==> controls_of(
            key,
            Some(u),
        ) == Some((ResolverSite::Arena, false)),
{
    reveal_strlit("github.com");
    reveal_strlit("are.na");
    reveal_strlit("www.are.na");
    assert("github.com"@[0] == 'g' && "are.na"@[0] == 'a' && "www.are.na"@[0] == 'w');
}

/// Everything that is a URL may be shown in a frame, but for pages of GitHub.
pub proof fn law_frames(u: UrlModel)
    ensures
        !frame_allowed(None),
        u.host == Some("github.com"@) || u.host == Some("www.github.com"@) ==> !frame_allowed(Some(u)),
        u.host != Some("github.com"@) && u.host != Some("www.github.com"@) ==> frame_allowed(Some(u)),
{
}

/// What a reader is told after resolving: how much was imported and removed, and how much stayed
/// as it was; that all is up to date where nothing changed; and that there is nothing where
/// nothing was found.
#[verifier::rlimit(50)]
pub proof fn law_status_sentences(i: nat, d: nat, k: nat, source: Seq<char>)
    ensures
        status_text(0, 0, 0, source) == "No "@ + source + " children found."@,
        k > 1 ==> status_text(0, 0, k, source) == "Already up to date ("@ + text::decimal(k)
            + " items)."@,
        status_text(0, 0, 1, source) == "Already up to date ("@ + text::decimal(1) + " item)."@,
        i > 1 ==> status_text(i, 0, 0, source) == "Imported "@ + text::decimal(i) + " "@ + source
            + " items."@,
        status_text(1, 0, 0, source) == "Imported "@ + text::decimal(1) + " "@ + source + " item."@,
        d > 1 ==> status_text(0, d, 0, source) == "Removed "@ + text::decimal(d)
            + " closed/stale items."@,
        i > 1 && k > 0 ==> status_text(i, 0, k, source) == "Imported "@ + text::decimal(i) + " "@ + source
            + " items. Kept "@ + text::decimal(k) + " current."@,
{
    reveal_strlit("s");
    reveal_strlit(".");
    reveal_strlit(").");
    reveal_strlit(" ");
    reveal_strlit(" item");
    reveal_strlit(" items).");
    reveal_strlit(" item).");
    reveal_strlit(" items.");
    reveal_strlit(" item.");
    reveal_strlit("Kept ");
    reveal_strlit(" items. Kept ");
    reveal_strlit(" closed/stale item");
    reveal_strlit(" closed/stale items.");
    let none = Seq::<char>::empty();
    let a = status_parts(0, 0, k, source);
    if k > 1 {
        assert(a.len() == 1);
        assert(a[0] =~= "Already up to date ("@ + text::decimal(k) + " items)."@);
        assert(text::join(a, " "@) == a[0]);
    }
    let b = status_parts(0, 0, 1, source);
    assert(b.len() == 1);
    assert(b[0] =~= "Already up to date ("@ + text::decimal(1) + " item)."@);
    assert(text::join(b, " "@) == b[0]);
    let c = status_parts(1, 0, 0, source);
    assert(c.len() == 1);
    assert(c[0] =~= "Imported "@ + text::decimal(1) + " "@ + source + " item."@);
    assert(text::join(c, " "@) == c[0]);
    if i > 1 {
        let e = status_parts(i, 0, 0, source);
        assert(e.len() == 1);
        assert(e[0] =~= "Imported "@ + text::decimal(i) + " "@ + source + " items."@);
        assert(text::join(e, " "@) == e[0]);
        if k > 0 {
            let f = status_parts(i, 0, k, source);
            assert(f.len() == 2);
            assert(f[0] =~= "Imported "@ + text::decimal(i) + " "@ + source + " items."@);
            assert(f[1] =~= "Kept "@ + text::decimal(k) + " current."@);
            let g = f.drop_last();
            assert(g.len() == 1 && g[0] == f[0]);
            assert(text::join(g, " "@) == g[0]);
            assert(text::join(f, " "@) == f[0] + " "@ + f[1]);
            assert(f[0] + " "@ + f[1] =~= "Imported "@ + text::decimal(i) + " "@ + source
                + " items. Kept "@ + text::decimal(k) + " current."@);
        }
    }
    if d > 1 {
        let h = status_parts(0, d, 0, source);
        assert(h.len() == 1);
        assert(h[0] =~= "Removed "@ + text::decimal(d) + " closed/stale items."@);
        assert(text::join(h, " "@) == h[0]);
    }
}

/// A video is recognised by the identity path of its page.
pub proof fn law_watched_videos(u: UrlModel, id: Seq<char>)
    requires
        u.host is Some,
        text::lower_ascii(u.host.unwrap()) == "www.youtube.com"@,
    ensures
        u.segments == Some(seq!["watch"@, "v"@, id]) ==> watch_id(u) == Some(id),
        watch_id(u) is Some ==> u.segments is Some && u.segments.unwrap().len() == 3
            && u.segments.unwrap()[0] == "watch"@ && u.segments.unwrap()[1] == "v"@
            && u.segments.unwrap()[2] == watch_id(u).unwrap(),
{
}

/// The source of an item is the item itself, but for the identity path of a video, whose source is
/// the page that plays it.
pub proof fn law_sources(item: Seq<char>, u: UrlModel)
    ensures
        source_of(item, source_page(None)) == Some(item),
        watch_id(u) is None ==> source_of(item, source_page(Some(u))) == Some(item),
        watch_id(u) is Some && source_page(Some(u)) is Watch ==> source_page(Some(u))
            == SourceModel::Watch(watch_id(u).unwrap()),
        watch_id(u) is Some ==> source_page(Some(u)) !is Item,
{
}

/// The page that plays a video is the watch page with the id of the video for its one parameter.
pub proof fn law_watch_pages(item: Seq<char>, id: Seq<char>, t: Seq<char>)
    requires
        outside::url_at_path_with_pairs(item, "/watch"@, seq![("v"@, id)]) == Some(t),
    ensures
        source_of(item, SourceModel::Watch(id)) == Some(t),
        source_of(item, SourceModel::TooLong) is None,
{
}

} // verus!
