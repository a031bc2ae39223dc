//! Browsing the garden: trails, redirects, the texts that are copied, and what stands on the
//! page of an item.

use vstd::prelude::*;

use crate::forum;
use crate::garden;
use crate::item_page::{self, ItemPageViewModel};
use crate::nav::{self, NavModel, ScopeId, ThreadNav};
use crate::paths::{self, ExternalOntologyPath, ItemId, OntologyPath};
use crate::state::{
    self, ChildrenRankings, ContentState, RankingsModel, ReducerState, ScopedComponent,
};
use crate::text;
use crate::votes;

verus! {

// ---------------------------------------------------------------------------
// Trails
// ---------------------------------------------------------------------------

/// A link of a trail.
pub struct Crumb {
    pub label: String,
    pub href: String,
    pub current: bool,
}

/// The mathematical value of a [`Crumb`].
pub struct CrumbModel {
    pub label: Seq<char>,
    pub href: Seq<char>,
    pub current: bool,
}

impl View for Crumb {
    type V = CrumbModel;

    open spec fn view(&self) -> CrumbModel {
        CrumbModel { label: self.label@, href: self.href@, current: self.current }
    }
}

fn push_crumb(out: &mut Vec<Crumb>, label: &str, href: &str, current: bool)
    ensures
        state::rows(final(out)@) == state::rows(old(out)@).push(
            CrumbModel { label: label@, href: href@, current },
        ),
{
    let c = Crumb { label: label.to_owned(), href: href.to_owned(), current };
    proof {
        state::lemma_rows_push(out@, c);
    }
    out.push(c);
}

/// The links of the first `n` segments of a path under the root of a garden.
pub open spec fn segment_crumbs(garden: Seq<char>, segs: Seq<Seq<char>>, n: int) -> Seq<CrumbModel>
    decreases n,
{
    if n <= 0 {
        Seq::empty()
    } else {
        segment_crumbs(garden, segs, n - 1).push(
            CrumbModel {
                label: segs[n - 1],
                href: garden + "/"@ + text::join(segs.take(n), "/"@),
                current: n == segs.len(),
            },
        )
    }
}

fn push_segments(out: &mut Vec<Crumb>, garden: &str, segs: &Vec<String>)
    ensures
        state::rows(final(out)@) == state::rows(old(out)@) + segment_crumbs(
            garden@,
            text::views(segs@),
            segs@.len() as int,
        ),
{
    let ghost first = state::rows(out@);
    let ghost sv = text::views(segs@);
    let mut i: usize = 0;
    assert(first + segment_crumbs(garden@, sv, 0) =~= first);
    while i < segs.len()
        invariant
            i <= segs.len(),
            sv == text::views(segs@),
            state::rows(out@) == first + segment_crumbs(garden@, sv, i as int),
        decreases segs.len() - i,
    {
        assert(sv[i as int] == segs@[i as int]@);
        let tail: String = text::joined_prefix(segs, i + 1, "/");
        let href: String = text::cat3(garden, "/", tail.as_str());
        push_crumb(out, segs[i].as_str(), href.as_str(), i + 1 == segs.len());
        assert(state::rows(out@) =~= first + segment_crumbs(garden@, sv, i + 1));
        i = i + 1;
    }
}

/// The trail of a path in the ontology, behind the link home: the root, then each segment.
pub fn bc_path(path: &OntologyPath) -> (r: Vec<Crumb>)
    requires
        path.wf(),
    ensures
        state::rows(r@) == seq![
            CrumbModel {
                label: "~"@,
                href: "/~"@,
                current: path.parts().len() == 0,
            },
        ] + segment_crumbs("/~"@, path.parts(), path.parts().len() as int),
{
    let mut out: Vec<Crumb> = Vec::new();
    let at_root: bool = path.is_root();
    push_crumb(&mut out, "~", "/~", at_root);
    assert(state::rows(out@) =~= seq![
        CrumbModel {
            label: "~"@,
            href: "/~"@,
            current: path.parts().len() == 0,
        },
    ]);
    push_segments(&mut out, "/~", path.segments());
    out
}

/// The URL of an item of a containment trail.
pub open spec fn containment_href(garden: Seq<char>, key: Seq<char>) -> Seq<char> {
    let leaf = paths::leaf_key(key);
    match paths::tilde_tail(leaf) {
        Some(tail) => if tail.len() == 0 {
            garden
        } else {
            garden + "/"@ + tail
        },
        None => garden + "/"@ + paths::last_piece(leaf),
    }
}

/// The links of the first `n` items of a containment trail.
pub open spec fn containment_crumbs(garden: Seq<char>, keys: Seq<Seq<char>>, n: int) -> Seq<CrumbModel>
    decreases n,
{
    if n <= 0 {
        Seq::empty()
    } else {
        containment_crumbs(garden, keys, n - 1).push(
            CrumbModel {
                label: paths::last_piece(paths::leaf_key(keys[n - 1])),
                href: containment_href(garden, keys[n - 1]),
                current: n == keys.len(),
            },
        )
    }
}

/// The links in front of a containment trail: the room, where it is in one, and the garden.
pub open spec fn garden_head(nav: NavModel, at_root: bool) -> Seq<CrumbModel> {
    match nav.scope {
        None => seq![CrumbModel { label: "~"@, href: "/~"@, current: at_root }],
        Some(room) => seq![
            CrumbModel {
                label: "room:"@ + nav::room_slug(room),
                href: nav.room_path,
                current: false,
            },
            CrumbModel { label: "~"@, href: nav.garden_prefix, current: at_root },
        ],
    }
}

fn push_garden_head(out: &mut Vec<Crumb>, nav: &ThreadNav, at_root: bool)
    ensures
        state::rows(final(out)@) == state::rows(old(out)@) + garden_head(nav@, at_root),
{
    let ghost first = state::rows(out@);
    let scope: ScopeId = nav.scope();
    match &scope {
        ScopeId::Public => {
            push_crumb(out, "~", "/~", at_root);
        },
        ScopeId::Room(rid) => {
            let slug: String = nav::room_slug_of(rid.as_str());
            let label: String = text::cat("room:", slug.as_str());
            push_crumb(out, label.as_str(), nav.room_url(), false);
            push_crumb(out, "~", nav.garden_root_url(), at_root);
        },
    }
    assert(state::rows(out@) =~= first + garden_head(nav@, at_root));
}

/// The trail of a path in the garden of a scope, segment by segment.
pub fn scoped_bc_path(path: &OntologyPath, nav: &ThreadNav) -> (r: Vec<Crumb>)
    requires
        path.wf(),
    ensures
        state::rows(r@) == garden_head(nav@, path.parts().len() == 0) + segment_crumbs(
            match nav@.scope {
                None => "/~"@,
                Some(_) => nav@.garden_prefix,
            },
            path.parts(),
            path.parts().len() as int,
        ),
{
    let mut out: Vec<Crumb> = Vec::new();
    let at_root: bool = path.is_root();
    push_garden_head(&mut out, nav, at_root);
    assert(state::rows(out@) =~= garden_head(nav@, path.parts().len() == 0));
    let scope: ScopeId = nav.scope();
    match &scope {
        ScopeId::Public => {
            push_segments(&mut out, "/~", path.segments());
        },
        ScopeId::Room(_) => {
            push_segments(&mut out, nav.garden_root_url(), path.segments());
        },
    }
    out
}

/// The trail of an item by containment.
pub fn scoped_bc_containment(path: &OntologyPath, crumbs: &Vec<ItemId>, nav: &ThreadNav) -> (r: Vec<
    Crumb,
>)
    requires
        path.wf(),
    ensures
        state::rows(r@) == garden_head(nav@, path.parts().len() == 0) + containment_crumbs(
            nav@.garden_prefix,
            paths::keys(crumbs@),
            crumbs@.len() as int,
        ),
{
    let mut out: Vec<Crumb> = Vec::new();
    let at_root: bool = path.is_root();
    push_garden_head(&mut out, nav, at_root);
    let ghost first = state::rows(out@);
    assert(first =~= garden_head(nav@, path.parts().len() == 0));
    let ghost ck = paths::keys(crumbs@);
    let garden: &str = nav.garden_root_url();
    let mut i: usize = 0;
    assert(first + containment_crumbs(garden@, ck, 0) =~= first);
    while i < crumbs.len()
        invariant
            i <= crumbs.len(),
            ck == paths::keys(crumbs@),
            garden@ == nav@.garden_prefix,
            state::rows(out@) == first + containment_crumbs(garden@, ck, i as int),
        decreases crumbs.len() - i,
    {
        assert(ck[i as int] == crumbs@[i as int]@);
        let leaf: ItemId = crumbs[i].ontology_leaf();
        let label: String = leaf.last_segment();
        let href: String = match leaf.tilde_tail() {
            Some(tail) => if tail.as_str().is_empty() {
                garden.to_owned()
            } else {
                text::cat3(garden, "/", tail.as_str())
            },
            None => text::cat3(garden, "/", label.as_str()),
        };
        push_crumb(&mut out, label.as_str(), href.as_str(), i + 1 == crumbs.len());
        assert(state::rows(out@) =~= first + containment_crumbs(garden@, ck, i + 1));
        i = i + 1;
    }
    out
}

/// A key as it stands behind the root of the outside items.
pub open spec fn external_tail(key: Seq<char>) -> Seq<char> {
    match text::strip_prefix(paths::display(key), "-/"@) {
        Some(t) => t,
        None => paths::display(key),
    }
}

/// The links of the first `n` outside items of a trail.
pub open spec fn external_crumbs(root: Seq<char>, keys: Seq<Seq<char>>, n: int) -> Seq<CrumbModel>
    decreases n,
{
    if n <= 0 {
        Seq::empty()
    } else {
        external_crumbs(root, keys, n - 1).push(
            CrumbModel {
                label: paths::last_piece(keys[n - 1]),
                href: root + "/"@ + external_tail(keys[n - 1]),
                current: n == keys.len(),
            },
        )
    }
}

/// The links in front of a trail of outside items.
pub open spec fn external_head(nav: NavModel, at_root: bool) -> Seq<CrumbModel> {
    match nav.scope {
        None => seq![CrumbModel { label: "-"@, href: nav::external_prefix(nav), current: at_root }],
        Some(room) => seq![
            CrumbModel {
                label: "room:"@ + nav::room_slug(room),
                href: nav.room_path,
                current: false,
            },
            CrumbModel { label: "-"@, href: nav::external_prefix(nav), current: at_root },
        ],
    }
}

/// The trail of an outside item.
pub fn scoped_bc_path_external(path: &ExternalOntologyPath, nav: &ThreadNav) -> (r: Vec<Crumb>)
    requires
        path.wf(),
    ensures
        state::rows(r@) == external_head(nav@, path.crumbs().len() == 0) + external_crumbs(
            nav::external_prefix(nav@),
            path.crumbs(),
            path.crumbs().len() as int,
        ),
{
    let mut out: Vec<Crumb> = Vec::new();
    let at_root: bool = path.is_root();
    let scope: ScopeId = nav.scope();
    let root: String = nav.external_root_url();
    match &scope {
        ScopeId::Public => {
            push_crumb(&mut out, "-", root.as_str(), at_root);
        },
        ScopeId::Room(rid) => {
            let slug: String = nav::room_slug_of(rid.as_str());
            let label: String = text::cat("room:", slug.as_str());
            push_crumb(&mut out, label.as_str(), nav.room_url(), false);
            push_crumb(&mut out, "-", root.as_str(), at_root);
        },
    }
    let ghost first = state::rows(out@);
    assert(first =~= external_head(nav@, path.crumbs().len() == 0));
    let chain: &Vec<ItemId> = path.breadcrumb_chain();
    let ghost ck = paths::keys(chain@);
    let mut i: usize = 0;
    assert(first + external_crumbs(root@, ck, 0) =~= first);
    while i < chain.len()
        invariant
            i <= chain.len(),
            ck == paths::keys(chain@),
            state::rows(out@) == first + external_crumbs(root@, ck, i as int),
        decreases chain.len() - i,
    {
        assert(ck[i as int] == chain@[i as int]@);
        let shown: Vec<char> = text::chars(chain[i].display_path().as_str());
        let tail: String = match text::without_prefix(&shown, "-/") {
            Some(t) => text::string(&t),
            None => text::string(&shown),
        };
        let href: String = text::cat3(root.as_str(), "/", tail.as_str());
        let label: String = chain[i].last_segment();
        push_crumb(&mut out, label.as_str(), href.as_str(), i + 1 == chain.len());
        assert(state::rows(out@) =~= first + external_crumbs(root@, ck, i + 1));
        i = i + 1;
    }
    out
}

/// A path in the garden: in the ontology or outside.
pub enum GardenBrowsePath {
    Tilde(OntologyPath),
    External(ExternalOntologyPath),
}

impl GardenBrowsePath {
    /// The key of the item.
    pub open spec fn key(&self) -> Seq<char> {
        match *self {
            GardenBrowsePath::Tilde(p) => p.key(),
            GardenBrowsePath::External(p) => p.key(),
        }
    }

    /// The item.
    pub fn item(&self) -> (r: &str)
        ensures
            r@ == self.key(),
    {
        match self {
            GardenBrowsePath::Tilde(p) => p.as_str(),
            GardenBrowsePath::External(p) => p.as_str(),
        }
    }

    /// Whether the item is outside the ontology.
    pub fn is_external(&self) -> (r: bool)
        ensures
            r == (*self is External),
    {
        match self {
            GardenBrowsePath::Tilde(_) => false,
            GardenBrowsePath::External(_) => true,
        }
    }
}

/// The trail of a path: by containment in the ontology, by its URL outside of it.
pub fn scoped_bc_path_for(path: &GardenBrowsePath, nav: &ThreadNav, crumbs: &Vec<ItemId>) -> (r: Vec<
    Crumb,
>)
    requires
        match *path {
            GardenBrowsePath::Tilde(p) => p.wf(),
            GardenBrowsePath::External(p) => p.wf(),
        },
    ensures
        state::rows(r@) == match *path {
            GardenBrowsePath::Tilde(p) => garden_head(nav@, p.parts().len() == 0)
                + containment_crumbs(
                nav@.garden_prefix,
                paths::keys(crumbs@),
                crumbs@.len() as int,
            ),
            GardenBrowsePath::External(p) => external_head(nav@, p.crumbs().len() == 0)
                + external_crumbs(
                nav::external_prefix(nav@),
                p.crumbs(),
                p.crumbs().len() as int,
            ),
        },
{
    match path {
        GardenBrowsePath::Tilde(p) => scoped_bc_containment(p, crumbs, nav),
        GardenBrowsePath::External(p) => scoped_bc_path_external(p, nav),
    }
}

// ---------------------------------------------------------------------------
// Redirects
// ---------------------------------------------------------------------------

/// A path with a query, where that is not empty.
pub open spec fn with_query(path: Seq<char>, query: Option<Seq<char>>) -> Seq<char> {
    match query {
        Some(q) => if q.len() > 0 {
            path + "?"@ + q
        } else {
            path
        },
        None => path,
    }
}

/// Where a redirect leads that keeps the query.
pub fn redirect_preserving_query(canonical: &str, query: Option<&str>) -> (r: String)
    ensures
        r@ == with_query(canonical@, text::opt_str(query)),
{
    match query {
        Some(q) => if q.is_empty() {
            canonical.to_owned()
        } else {
            text::cat3(canonical, "?", q)
        },
        None => canonical.to_owned(),
    }
}

/// A path without slashes at its end; the home page where nothing is left.
pub open spec fn stripped_path(path: Seq<char>) -> Seq<char> {
    let p = text::trim_char_end(path, '/');
    if p.len() == 0 {
        "/"@
    } else {
        p
    }
}

/// Where a path with slashes at its end leads.
pub fn redirect_strip_trailing_slash(path: &str, query: Option<&str>) -> (r: String)
    ensures
        r@ == with_query(stripped_path(path@), text::opt_str(query)),
{
    let p: Vec<char> = text::without_trailing(&text::chars(path), '/');
    if p.len() == 0 {
        redirect_preserving_query("/", query)
    } else {
        redirect_preserving_query(text::string(&p).as_str(), query)
    }
}

/// A path that was stripped is not stripped again: the redirect does not go in circles.
pub proof fn law_stripping_is_stable(path: Seq<char>)
    ensures
        stripped_path(stripped_path(path)) == stripped_path(path),
        stripped_path(path).len() > 1 ==> stripped_path(path).last() != '/',
{
    lemma_trim_end(path);
    let p = text::trim_char_end(path, '/');
    reveal_strlit("/");
    if p.len() == 0 {
        assert("/"@ =~= seq!['/']);
        assert("/"@.drop_last() =~= Seq::empty());
        reveal_with_fuel(text::trim_char_end, 2);
    } else {
        assert(text::trim_char_end(p, '/') == p);
    }
}

proof fn lemma_trim_end(s: Seq<char>)
    ensures
        text::trim_char_end(s, '/').len() > 0 ==> text::trim_char_end(s, '/').last() != '/',
    decreases s.len(),
{
    if s.len() > 0 && s.last() == '/' {
        lemma_trim_end(s.drop_last());
    }
}

/// Where an old spelling of an outside path under a room leads: behind the root of the room's
/// outside items.
pub open spec fn room_external_target(nav: NavModel, canonical: Seq<char>) -> Seq<char> {
    nav::external_prefix(nav) + "/"@ + match text::strip_prefix(canonical, "/-/"@) {
        Some(t) => t,
        None => text::trim_char_start(canonical, '/'),
    }
}

/// Where an old spelling of an outside path under a room leads.
pub fn room_external_redirect(nav: &ThreadNav, canonical: &str, query: Option<&str>) -> (r: String)
    ensures
        r@ == with_query(room_external_target(nav@, canonical@), text::opt_str(query)),
{
    let c: Vec<char> = text::chars(canonical);
    let tail: Vec<char> = match text::without_prefix(&c, "/-/") {
        Some(t) => t,
        None => text::without_leading(&c, '/'),
    };
    let root: String = nav.external_root_url();
    let t: String = text::string(&tail);
    let base: String = text::cat3(root.as_str(), "/", t.as_str());
    redirect_preserving_query(base.as_str(), query)
}

/// Where a pin leads back to from an index of the garden.
pub fn index_next_for_pin(base: &str, query: Option<&str>) -> (r: String)
    ensures
        r@ == with_query(base@, text::opt_str(query)),
{
    redirect_preserving_query(base, query)
}

/// Where a pin leads back to from the page of an item: with the query, unless the URL of the
/// item has one.
pub open spec fn item_next(base: Seq<char>, query: Option<Seq<char>>) -> Seq<char> {
    if base.contains('?') {
        base
    } else {
        with_query(base, query)
    }
}

/// Where a pin leads back to from the page of an item.
pub fn item_next_for_pin(nav: &ThreadNav, item: &str, query: Option<&str>) -> (r: String)
    ensures
        r@ == item_next(nav::written_item_href(nav@, item@), text::opt_str(query)),
{
    let base: String = garden::item_href(item, nav);
    if text::has_char(&text::chars(base.as_str()), '?') {
        base
    } else {
        redirect_preserving_query(base.as_str(), query)
    }
}

// ---------------------------------------------------------------------------
// Copying a ranking
// ---------------------------------------------------------------------------

/// The numbered lines of the first `n` items of a component.
pub open spec fn numbered(items: Seq<state::RankedModel>, n: int) -> Seq<char>
    decreases n,
{
    if n <= 0 {
        Seq::empty()
    } else {
        numbered(items, n - 1) + (text::decimal(n as nat) + ". "@ + garden::shown_path(
            items[n - 1].item,
        ) + "\n"@)
    }
}

/// The text of component `k`: a blank line in front of all but the first, a heading where there
/// are several, then its items.
pub open spec fn component_text(c: state::ComponentModel, k: nat, multi: bool) -> Seq<char> {
    (if k > 0 {
        "\n"@
    } else {
        Seq::empty()
    }) + (if multi {
        "### ordering "@ + text::decimal(k + 1) + "\n\n"@
    } else {
        Seq::empty()
    }) + numbered(c.ranked, c.ranked.len() as int)
}

/// The texts of the first `n` components.
pub open spec fn components_text(v: Seq<state::ComponentModel>, n: int) -> Seq<char>
    decreases n,
{
    if n <= 0 {
        Seq::empty()
    } else {
        components_text(v, n - 1) + component_text(v[n - 1], (n - 1) as nat, v.len() > 1)
    }
}

/// The lines of the first `n` items without votes.
pub open spec fn bullets(items: Seq<Seq<char>>, n: int) -> Seq<char>
    decreases n,
{
    if n <= 0 {
        Seq::empty()
    } else {
        bullets(items, n - 1) + ("- "@ + garden::shown_path(items[n - 1]) + "\n"@)
    }
}

/// A ranking as concise Markdown.
pub open spec fn rank_markdown(r: RankingsModel) -> Seq<char> {
    let ranked = components_text(r.components, r.components.len() as int);
    if r.unranked.len() == 0 {
        ranked
    } else {
        ranked + (if ranked.len() > 0 {
            "\n"@
        } else {
            Seq::empty()
        }) + bullets(r.unranked, r.unranked.len() as int)
    }
}

fn push_component(out: &mut String, comp: &ScopedComponent, k: usize, multi: bool)
    requires
        k < usize::MAX,
    ensures
        final(out)@ == old(out)@ + component_text(comp@, k as nat, multi),
{
    let ghost start = out@;
    if k > 0 {
        out.append("\n");
    }
    let ghost lead = if k > 0 {
        "\n"@
    } else {
        Seq::empty()
    };
    assert(out@ =~= start + lead);
    let ghost head = if multi {
        "### ordering "@ + text::decimal((k + 1) as nat) + "\n\n"@
    } else {
        Seq::empty()
    };
    if multi {
        let n: String = text::size(k + 1);
        let h: String = text::cat3("### ordering ", n.as_str(), "\n\n");
        out.append(h.as_str());
    }
    assert(out@ =~= start + (lead + head));
    let ghost rows = state::rows(comp.ranked@);
    let mut i: usize = 0;
    assert(out@ =~= start + (lead + head + numbered(rows, 0)));
    while i < comp.ranked.len()
        invariant
            i <= comp.ranked.len(),
            rows == state::rows(comp.ranked@),
            out@ == start + (lead + head + numbered(rows, i as int)),
        decreases comp.ranked.len() - i,
    {
        assert(rows[i as int] == comp.ranked@[i as int]@);
        let n: String = text::size(i + 1);
        let shown: String = garden::item_display_path(comp.ranked[i].item.as_str());
        let line: String = text::cat4(n.as_str(), ". ", shown.as_str(), "\n");
        out.append(line.as_str());
        assert(out@ =~= start + (lead + head + numbered(rows, i + 1)));
        i = i + 1;
    }
}

/// A ranking as concise Markdown: numbered lists for the components, bullets for the rest.
pub fn format_garden_rank_markdown(rankings: &ChildrenRankings) -> (r: String)
    ensures
        r@ == rank_markdown(rankings@),
{
    let multi: bool = rankings.component_rankings.len() > 1;
    let ghost cv = rankings@.components;
    let mut out: String = String::new();
    let mut i: usize = 0;
    assert(out@ =~= components_text(cv, 0));
    while i < rankings.component_rankings.len()
        invariant
            i <= rankings.component_rankings.len(),
            cv == rankings@.components,
            multi == (cv.len() > 1),
            out@ == components_text(cv, i as int),
        decreases rankings.component_rankings.len() - i,
    {
        assert(cv[i as int] == rankings.component_rankings@[i as int]@);
        push_component(&mut out, &rankings.component_rankings[i], i, multi);
        i = i + 1;
    }
    assert(rankings@.unranked.len() == rankings.unranked_items@.len());
    if rankings.unranked_items.len() == 0 {
        return out;
    }
    let ghost ranked = out@;
    let ghost lead = if ranked.len() > 0 {
        "\n"@
    } else {
        Seq::empty()
    };
    if !out.as_str().is_empty() {
        out.append("\n");
    }
    let ghost uv = rankings@.unranked;
    let mut k: usize = 0;
    assert(out@ =~= ranked + lead + bullets(uv, 0));
    while k < rankings.unranked_items.len()
        invariant
            k <= rankings.unranked_items.len(),
            uv == rankings@.unranked,
            out@ == ranked + lead + bullets(uv, k as int),
        decreases rankings.unranked_items.len() - k,
    {
        assert(uv[k as int] == rankings.unranked_items@[k as int]@);
        let shown: String = garden::item_display_path(rankings.unranked_items[k].as_str());
        let line: String = text::cat3("- ", shown.as_str(), "\n");
        out.append(line.as_str());
        assert(out@ =~= ranked + lead + bullets(uv, k + 1));
        k = k + 1;
    }
    out
}

/// Why nothing is copied.
#[derive(Debug, PartialEq, Eq, Structural)]
pub enum CopyError {
    Forbidden,
    NothingToCopy,
}

/// The ranking that is copied: that of the hosts, or of the descendants down to a depth, or of
/// the members of a scope.
pub open spec fn copied_rankings(
    c: Option<ContentState>,
    parent: Seq<char>,
    depth: nat,
    external_hosts: bool,
    deep: RankingsModel,
    hosts: RankingsModel,
) -> RankingsModel {
    if external_hosts {
        hosts
    } else if depth > 1 {
        deep
    } else {
        match c {
            Some(content) => state::rankings_of(content, item_page::page_key(text::trim(parent))),
            None => state::no_rankings(),
        }
    }
}

/// The ranking that is copied. `deep` is the ranking of the descendants and `hosts` that of the
/// hosts outside, each taken where it is asked for.
pub fn rankings_for_copy(
    content: Option<&ContentState>,
    parent_path: &str,
    depth: usize,
    external_hosts: bool,
    deep: &ChildrenRankings,
    hosts: &ChildrenRankings,
) -> (r: ChildrenRankings)
    ensures
        r@ == copied_rankings(
            match content {
                Some(c) => Some(*c),
                None => None,
            },
            parent_path@,
            depth as nat,
            external_hosts,
            deep@,
            hosts@,
        ),
{
    if external_hosts {
        return hosts.copy();
    }
    if depth > 1 {
        return deep.copy();
    }
    let t: String = text::trim_str(parent_path);
    let parent: ItemId = match ItemId::parse(t.as_str()) {
        Some(i) => i.ontology_leaf().normalized_storage(),
        None => ItemId::ontology_root().normalized_storage(),
    };
    match content {
        Some(c) => c.children_rankings(&parent),
        None => ChildrenRankings::empty(),
    }
}

/// The text of a ranking that a reader copies: only what they may see, and only where there is
/// something.
pub fn garden_ui_copy_rank(
    reduced: &ReducerState,
    room: &str,
    parent_path: &str,
    depth: usize,
    external_hosts: bool,
    viewer: Option<&str>,
    deep: &ChildrenRankings,
    hosts: &ChildrenRankings,
) -> (r: Result<String, CopyError>)
    ensures
        ({
            let scope = nav::wire_scope(text::trim(room@));
            let rankings = copied_rankings(
                state::content_of(*reduced, scope),
                parent_path@,
                depth as nat,
                external_hosts,
                deep@,
                hosts@,
            );
            if scope is Some && !forum::can_view_room(
                *reduced,
                scope.unwrap(),
                text::opt_str(viewer),
            ) {
                r == Err::<String, CopyError>(CopyError::Forbidden)
            } else if rank_markdown(rankings).len() == 0 {
                r == Err::<String, CopyError>(CopyError::NothingToCopy)
            } else {
                match r {
                    Ok(s) => s@ == rank_markdown(rankings),
                    Err(_) => false,
                }
            }
        }),
{
    let wire: String = text::trim_str(room);
    let scope: ScopeId = nav::scope_from_room_wire(wire.as_str());
    match &scope {
        ScopeId::Public => {},
        ScopeId::Room(rid) => {
            if !forum::user_can_view_room(reduced, rid.as_str(), viewer) {
                return Err(CopyError::Forbidden);
            }
        },
    }
    let content: Option<&ContentState> = reduced.content_for_scope(&scope);
    let rankings: ChildrenRankings = rankings_for_copy(
        content,
        parent_path,
        depth,
        external_hosts,
        deep,
        hosts,
    );
    let s: String = format_garden_rank_markdown(&rankings);
    if s.as_str().is_empty() {
        return Err(CopyError::NothingToCopy);
    }
    Ok(s)
}

// ---------------------------------------------------------------------------
// The page of an item
// ---------------------------------------------------------------------------

/// What stands in the place of the body.
#[derive(Debug, PartialEq, Eq, Structural)]
pub enum BodyPart {
    /// The body of a scope, labelled as a prompt.
    Prompt,
    Body,
    /// An outside item without a body: a link to its page.
    ExternalEmpty,
    NoBody,
}

/// The parts of the page of an item that are computed from its model.
pub struct ItemPageParts {
    pub title: String,
    pub body_part: BodyPart,
    pub unranked_note: bool,
    /// Where the siblings of the item are judged.
    pub vote_item_href: Option<String>,
    /// Where its members are judged.
    pub vote_children_href: Option<String>,
    pub show_copy: bool,
    pub cli: String,
}

/// How many items a ranking has.
pub open spec fn ranked_total(r: RankingsModel) -> nat {
    item_page::sibling_total(component_sizes(r.components)) + r.unranked.len()
}

/// The items of each component.
pub open spec fn component_sizes(v: Seq<state::ComponentModel>) -> Seq<Seq<Seq<char>>> {
    Seq::new(v.len(), |i: int| item_page::ranked_keys(v[i]))
}

fn count_upto_two(r: &ChildrenRankings) -> (n: usize)
    ensures
        n == if ranked_total(r@) >= 2 {
            2
        } else {
            ranked_total(r@) as int
        },
{
    let ghost sizes = component_sizes(r@.components);
    assert(r@.unranked.len() == r.unranked_items@.len());
    let mut n: usize = if r.unranked_items.len() >= 2 {
        2
    } else {
        r.unranked_items.len()
    };
    let mut i: usize = 0;
    assert(item_page::sibling_total(sizes.take(0)) == 0);
    while i < r.component_rankings.len()
        invariant
            i <= r.component_rankings.len(),
            sizes == component_sizes(r@.components),
            n == (if item_page::sibling_total(sizes.take(i as int)) + r@.unranked.len() >= 2 {
                2
            } else {
                item_page::sibling_total(sizes.take(i as int)) + r@.unranked.len()
            }),
        decreases r.component_rankings.len() - i,
    {
        assert(sizes.take(i + 1).drop_last() =~= sizes.take(i as int));
        assert(sizes.take(i + 1).last() == item_page::ranked_keys(
            r.component_rankings@[i as int]@,
        ));
        assert(item_page::ranked_keys(r.component_rankings@[i as int]@).len()
            == r.component_rankings@[i as int].ranked@.len());
        let m: usize = r.component_rankings[i].ranked.len();
        n = if m >= 2 || n + m >= 2 {
            2
        } else {
            n + m
        };
        i = i + 1;
    }
    assert(sizes.take(sizes.len() as int) =~= sizes);
    n
}

/// The command line that shows the body of an item.
pub open spec fn body_cli(scope: Option<Seq<char>>, item: Seq<char>) -> Seq<char> {
    match scope {
        None => "npx slugsocial public garden body "@ + garden::shown_path(item),
        Some(room) => "npx slugsocial private "@ + room + " garden body "@ + garden::shown_path(
            item,
        ),
    }
}

/// The parts of the page of an item.
pub fn item_page_parts(
    model: &ItemPageViewModel,
    content: &ContentState,
    nav: &ThreadNav,
    external: bool,
) -> (r: ItemPageParts)
    ensures
        r.title@ == garden::shown_path(model.item@),
        r.body_part == if model.body is Some {
            if model.is_scope {
                BodyPart::Prompt
            } else {
                BodyPart::Body
            }
        } else if external {
            BodyPart::ExternalEmpty
        } else {
            BodyPart::NoBody
        },
        r.unranked_note == (model.sibling_nav is None && model.item_has_parent),
        text::opt_view(r.vote_item_href) == if model.sibling_nav is Some {
            match paths::item_key(model.item@) {
                Some(k) => match item_page::strongest(*content, k) {
                    Some(p) => Some(votes::pool_href(nav@, p)),
                    None => None,
                },
                None => None,
            }
        } else {
            None
        },
        text::opt_view(r.vote_children_href) == if ranked_total(model.child_rankings@) >= 2 {
            Some(votes::pool_href(nav@, model.item@))
        } else {
            None
        },
        r.show_copy == (ranked_total(model.child_rankings@) > 0),
        r.cli@ == body_cli(nav@.scope, model.item@),
{
    let n: usize = count_upto_two(&model.child_rankings);
    let body_part: BodyPart = match &model.body {
        Some(_) => if model.is_scope {
            BodyPart::Prompt
        } else {
            BodyPart::Body
        },
        None => if external {
            BodyPart::ExternalEmpty
        } else {
            BodyPart::NoBody
        },
    };
    let vote_item_href: Option<String> = if model.sibling_nav.is_some() {
        match ItemId::parse(model.item.as_str()) {
            Some(i) => match item_page::strongest_parent(content, &i) {
                Some(p) => Some(votes::vote_pool_href(nav, p.as_str())),
                None => None,
            },
            None => None,
        }
    } else {
        None
    };
    let vote_children_href: Option<String> = if n >= 2 {
        Some(votes::vote_pool_href(nav, model.item.as_str()))
    } else {
        None
    };
    let shown: String = garden::item_display_path(model.item.as_str());
    let scope: ScopeId = nav.scope();
    let cli: String = match &scope {
        ScopeId::Public => text::cat("npx slugsocial public garden body ", shown.as_str()),
        ScopeId::Room(room) => text::cat4(
            "npx slugsocial private ",
            room.as_str(),
            " garden body ",
            shown.as_str(),
        ),
    };
    ItemPageParts {
        title: shown,
        body_part,
        unranked_note: model.sibling_nav.is_none() && model.item_has_parent,
        vote_item_href,
        vote_children_href,
        show_copy: n > 0,
        cli,
    }
}

/// How a change of rank is shown: up, down, or not at all.
pub open spec fn delta_text(delta: int) -> Seq<char> {
    if delta < 0 {
        " ↑"@ + text::decimal((-delta) as nat)
    } else if delta > 0 {
        " ↓"@ + text::decimal(delta as nat)
    } else {
        Seq::empty()
    }
}

/// How a change of rank is shown.
pub fn rank_delta_text(delta: i32) -> (r: String)
    ensures
        r@ == delta_text(delta as int),
{
    if delta < 0 {
        let n: String = text::number((-(delta as i64)) as u64);
        text::cat(" ↑", n.as_str())
    } else if delta > 0 {
        let n: String = text::number(delta as u64);
        text::cat(" ↓", n.as_str())
    } else {
        let none: String = String::new();
        assert(none@ =~= Seq::empty());
        none
    }
}

/// What is said of entry `i` of a history of `n`.
pub open spec fn history_note(i: int, n: int) -> Seq<char> {
    if i == 0 {
        " — entered"@
    } else if i == n - 1 {
        " — current"@
    } else {
        Seq::empty()
    }
}

/// What is said of an entry of a history.
pub fn history_label(i: usize, n: usize) -> (r: &'static str)
    requires
        i < n,
    ensures
        r@ == history_note(i as int, n as int),
{
    if i == 0 {
        " — entered"
    } else if i == n - 1 {
        " — current"
    } else {
        let none: &'static str = "";
        proof {
            reveal_strlit("");
        }
        assert(none@ =~= Seq::empty());
        none
    }
}

/// Why the garden of a room is not shown.
#[derive(Debug, PartialEq, Eq, Structural)]
pub enum GardenGateError {
    BadRoomPath,
    NotFound,
}

/// Whether the garden of a room may be shown: the path names a room that the reader may view, and that
/// has a garden.
pub fn room_garden_gate(reduced: &ReducerState, room_key: &str, user: Option<&str>) -> (r: Result<
    ThreadNav,
    GardenGateError,
>)
    ensures
        ({
            let room = nav::segment_room(room_key@);
            match r {
                Ok(n) => {
                    &&& room is Some
                    &&& nav::room_nav(room.unwrap()) == Some(n@)
                    &&& forum::can_view_room(*reduced, room.unwrap(), text::opt_str(user))
                    &&& n@.scope is None || state::content_of(*reduced, n@.scope) is Some
                },
                Err(GardenGateError::BadRoomPath) => room is None || nav::room_nav(room.unwrap())
                    is None,
                Err(GardenGateError::NotFound) => {
                    &&& room is Some
                    &&& match nav::room_nav(room.unwrap()) {
                        Some(n) => !forum::can_view_room(
                            *reduced,
                            room.unwrap(),
                            text::opt_str(user),
                        ) || !(n.scope is None || state::content_of(*reduced, n.scope) is Some),
                        None => false,
                    }
                },
            }
        }),
{
    let room: String = match nav::room_id_from_route_segment(room_key) {
        Some(r) => r,
        None => {
            return Err(GardenGateError::BadRoomPath);
        },
    };
    let nav: ThreadNav = match ThreadNav::from_room_id(room.as_str()) {
        Some(n) => n,
        None => {
            return Err(GardenGateError::BadRoomPath);
        },
    };
    if !forum::user_can_view_room(reduced, room.as_str(), user) {
        return Err(GardenGateError::NotFound);
    }
    if !garden::room_scope_has_garden_content(reduced, &nav) {
        return Err(GardenGateError::NotFound);
    }
    Ok(nav)
}

/// A row of the scopes that an item belongs to.
pub struct ParentRow {
    pub edge_id: String,
    pub href: String,
    pub name: String,
    /// Whether the item is the only member.
    pub only_member: bool,
    /// The weights of the membership.
    pub weight: Option<String>,
    pub vote_href: String,
    pub vote_tip: String,
}

/// The row of a scope that an item belongs to.
pub fn parent_row(model: &ItemPageViewModel, nav: &ThreadNav, scope: &ItemId) -> (r: ParentRow)
    ensures
        r.edge_id@ == item_page::edge_fragment(
            match paths::item_key(model.item@) {
                Some(k) => paths::leaf_key(k),
                None => model.item@,
            },
            scope@,
        ),
        r.href@ == nav::written_item_href(nav@, scope@),
        r.name@ == garden::shown_path(scope@),
        r.only_member == !(exists|i: int|
            0 <= i < model.sibling_navs@.len() && (#[trigger] model.sibling_navs@[i]).scope@
                == scope@),
        match r.weight {
            Some(w) => exists|i: int|
                #![trigger model.memberships@[i]]
                0 <= i < model.memberships@.len() && model.memberships@[i].parent@ == scope@ && w@
                    == item_page::weight_label(model.memberships@[i]@) && forall|j: int|
                    0 <= j < i ==> (#[trigger] model.memberships@[j]).parent@ != scope@,
            None => forall|j: int|
                0 <= j < model.memberships@.len() ==> (#[trigger] model.memberships@[j]).parent@
                    != scope@,
        },
        r.vote_href@ == votes::pool_href(nav@, scope@),
        r.vote_tip@ == "vote among "@ + garden::shown_path(scope@) + " members"@,
{
    let item: ItemId = match ItemId::parse(model.item.as_str()) {
        Some(i) => i.ontology_leaf(),
        None => ItemId::opaque(model.item.clone()),
    };
    let mut only_member: bool = true;
    let mut i: usize = 0;
    while i < model.sibling_navs.len()
        invariant
            i <= model.sibling_navs.len(),
            only_member == !(exists|j: int|
                0 <= j < i && (#[trigger] model.sibling_navs@[j]).scope@ == scope@),
        decreases model.sibling_navs.len() - i,
    {
        if model.sibling_navs[i].scope.same(scope) {
            only_member = false;
        }
        i = i + 1;
    }
    let mut weight: Option<String> = None;
    let mut k: usize = 0;
    while k < model.memberships.len() && weight.is_none()
        invariant
            k <= model.memberships.len(),
            match weight {
                Some(w) => 0 < k && model.memberships@[k - 1].parent@ == scope@ && w@
                    == item_page::weight_label(model.memberships@[k - 1]@) && forall|j: int|
                    0 <= j < k - 1 ==> (#[trigger] model.memberships@[j]).parent@ != scope@,
                None => forall|j: int|
                    0 <= j < k ==> (#[trigger] model.memberships@[j]).parent@ != scope@,
            },
        decreases model.memberships.len() - k,
    {
        if model.memberships[k].parent.same(scope) {
            weight = Some(item_page::pair_weight_label(&model.memberships[k]));
        }
        k = k + 1;
    }
    let shown: String = garden::item_display_path(scope.as_str());
    ParentRow {
        edge_id: item_page::edge_fragment_id(&item, scope),
        href: garden::item_href(scope.as_str(), nav),
        only_member,
        weight,
        vote_href: votes::vote_pool_href(nav, scope.as_str()),
        vote_tip: text::cat3("vote among ", shown.as_str(), " members"),
        name: shown,
    }
}

/// The trail of a room: the room, the thread in it, and one post of that.
pub open spec fn room_trail(
    nav: NavModel,
    slug: Seq<char>,
    tag: Option<Seq<char>>,
    post: Option<nat>,
) -> Seq<CrumbModel> {
    let room = CrumbModel { label: "room:"@ + slug, href: nav.room_path, current: tag is None };
    match tag {
        None => seq![room],
        Some(t) => match post {
            None => seq![
                room,
                CrumbModel { label: "#"@ + t, href: nav::thread_href(nav, t), current: true },
            ],
            Some(i) => seq![
                room,
                CrumbModel { label: "#"@ + t, href: nav::thread_href(nav, t), current: false },
                CrumbModel {
                    label: "post #"@ + text::decimal(i),
                    href: nav::post_href(nav, t, i),
                    current: true,
                },
            ],
        },
    }
}

/// The trail of a room, behind the link home.
pub fn bc_room(
    nav: &ThreadNav,
    room_slug: &str,
    thread_tag: Option<&str>,
    focused_post: Option<usize>,
) -> (r: Vec<Crumb>)
    ensures
        state::rows(r@) == room_trail(
            nav@,
            room_slug@,
            text::opt_str(thread_tag),
            match focused_post {
                Some(i) => Some(i as nat),
                None => None,
            },
        ),
{
    let mut out: Vec<Crumb> = Vec::new();
    let room: String = text::cat("room:", room_slug);
    push_crumb(&mut out, room.as_str(), nav.room_url(), thread_tag.is_none());
    match thread_tag {
        None => {},
        Some(t) => {
            let label: String = text::cat("#", t);
            let href: String = nav.thread_url(t);
            push_crumb(&mut out, label.as_str(), href.as_str(), focused_post.is_none());
            match focused_post {
                None => {},
                Some(i) => {
                    let n: String = text::size(i);
                    let post: String = text::cat("post #", n.as_str());
                    let post_href: String = nav.post_url(t, i);
                    push_crumb(&mut out, post.as_str(), post_href.as_str(), true);
                },
            }
        },
    }
    assert(state::rows(out@) =~= room_trail(
        nav@,
        room_slug@,
        text::opt_str(thread_tag),
        match focused_post {
            Some(i) => Some(i as nat),
            None => None,
        },
    ));
    out
}

/// A row of the rank history of an item.
pub struct HistoryRow {
    pub position: String,
    pub note: &'static str,
    pub thread_href: String,
    pub post_href: String,
    /// Whether votes elsewhere caused the change.
    pub transitive: bool,
}

/// Row `i` of the rank history of an item.
pub fn history_row(model: &ItemPageViewModel, nav: &ThreadNav, i: usize) -> (r: HistoryRow)
    requires
        i < model.rank_history@.len(),
    ensures
        ({
            let e = model.rank_history@[i as int]@;
            &&& r.position@ == "#"@ + text::decimal(e.rank) + " of "@ + text::decimal(e.total)
                + delta_text(e.delta)
            &&& r.note@ == history_note(i as int, model.rank_history@.len() as int)
            &&& r.thread_href@ == nav::thread_href_for_post(nav@, e.thread, e.post_index as nat)
            &&& r.post_href@ == nav::post_href(nav@, e.thread, e.post_index as nat)
            &&& r.transitive == (e.caused_by.len() == 0)
        }),
{
    let e: &item_page::RankHistoryEntryView = &model.rank_history[i];
    let rank: String = text::size(e.scope_rank);
    let total: String = text::size(e.scope_total);
    let delta: String = rank_delta_text(e.scope_rank_delta);
    HistoryRow {
        position: text::cat5("#", rank.as_str(), " of ", total.as_str(), delta.as_str()),
        note: history_label(i, model.rank_history.len()),
        thread_href: nav.thread_url_for_post(e.thread.as_str(), e.thread_post_index),
        post_href: nav.post_url(e.thread.as_str(), e.thread_post_index),
        transitive: e.caused_by.len() == 0,
    }
}

/// The heading of a component: its number, its items and its pairs.
pub fn ordering_heading(k: usize, items: usize, pairs: usize) -> (r: String)
    requires
        k < usize::MAX,
    ensures
        r@ == "ordering "@ + text::decimal((k + 1) as nat) + " items="@ + text::decimal(
            items as nat,
        ) + " pairs="@ + text::decimal(pairs as nat),
{
    let a: String = text::size(k + 1);
    let b: String = text::size(items);
    let c: String = text::size(pairs);
    let head: String = text::cat5("ordering ", a.as_str(), " items=", b.as_str(), " pairs=");
    text::cat(head.as_str(), c.as_str())
}

/// The trail to a path links each of its beginnings: crumb by crumb one segment more, the last of
/// them marked as the current one.
pub proof fn law_segment_trails(garden: Seq<char>, segs: Seq<Seq<char>>, n: int, k: int)
    requires
        0 <= k < n <= segs.len(),
    ensures
        segment_crumbs(garden, segs, n).len() == n,
        segment_crumbs(garden, segs, n)[k].label == segs[k],
        segment_crumbs(garden, segs, n)[k].href == garden + "/"@ + text::join(
            segs.take(k + 1),
            "/"@,
        ),
        segment_crumbs(garden, segs, n)[k].current <==> k == segs.len() - 1,
    decreases n,
{
    if k < n - 1 {
        law_segment_trails(garden, segs, n - 1, k);
    } else if n > 1 {
        law_segment_trails(garden, segs, n - 1, 0);
    } else {
        assert(segment_crumbs(garden, segs, 0).len() == 0);
    }
}

/// The trail by membership links each item by its last segment, the last one as the current one.
pub proof fn law_containment_trails(garden: Seq<char>, keys: Seq<Seq<char>>, n: int, k: int)
    requires
        0 <= k < n <= keys.len(),
    ensures
        containment_crumbs(garden, keys, n).len() == n,
        containment_crumbs(garden, keys, n)[k].label == paths::last_piece(paths::leaf_key(keys[k])),
        containment_crumbs(garden, keys, n)[k].href == containment_href(garden, keys[k]),
        containment_crumbs(garden, keys, n)[k].current <==> k == keys.len() - 1,
    decreases n,
{
    if k < n - 1 {
        law_containment_trails(garden, keys, n - 1, k);
    } else if n > 1 {
        law_containment_trails(garden, keys, n - 1, 0);
    } else {
        assert(containment_crumbs(garden, keys, 0).len() == 0);
    }
}

/// The trail of an external item links each of its ancestors and the item.
pub proof fn law_external_trails(root: Seq<char>, keys: Seq<Seq<char>>, n: int, k: int)
    requires
        0 <= k < n <= keys.len(),
    ensures
        external_crumbs(root, keys, n).len() == n,
        external_crumbs(root, keys, n)[k].label == paths::last_piece(keys[k]),
        external_crumbs(root, keys, n)[k].href == root + "/"@ + external_tail(keys[k]),
        external_crumbs(root, keys, n)[k].current <==> k == keys.len() - 1,
    decreases n,
{
    if k < n - 1 {
        law_external_trails(root, keys, n - 1, k);
    } else if n > 1 {
        law_external_trails(root, keys, n - 1, 0);
    } else {
        assert(external_crumbs(root, keys, 0).len() == 0);
    }
}

/// A ranking that is copied numbers the items of a component from one, in the order of their
/// rank, and marks those without votes with a dash.
pub proof fn law_copied_lines(items: Seq<state::RankedModel>, plain: Seq<Seq<char>>, n: int)
    requires
        0 <= n,
    ensures
        numbered(items, 0).len() == 0,
        numbered(items, n + 1) == numbered(items, n) + text::decimal((n + 1) as nat) + ". "@
            + garden::shown_path(items[n].item) + "\n"@,
        bullets(plain, 0).len() == 0,
        bullets(plain, n + 1) == bullets(plain, n) + "- "@ + garden::shown_path(plain[n]) + "\n"@,
{
    assert(numbered(items, n + 1) =~= numbered(items, n) + text::decimal((n + 1) as nat) + ". "@
        + garden::shown_path(items[n].item) + "\n"@);
    assert(bullets(plain, n + 1) =~= bullets(plain, n) + "- "@ + garden::shown_path(plain[n])
        + "\n"@);
}

/// A single component is copied without a heading; of several, each has one with its number, and
/// a blank line in front of all but the first.
pub proof fn law_copied_components(c: state::ComponentModel, d: state::ComponentModel)
    ensures
        components_text(seq![c], 1) == numbered(c.ranked, c.ranked.len() as int),
        components_text(seq![c, d], 2) == "### ordering "@ + text::decimal(1) + "\n\n"@ + numbered(
            c.ranked,
            c.ranked.len() as int,
        ) + "\n"@ + "### ordering "@ + text::decimal(2) + "\n\n"@ + numbered(
            d.ranked,
            d.ranked.len() as int,
        ),
{
    let one = seq![c];
    assert(components_text(one, 0) =~= Seq::empty());
    assert(components_text(one, 1) =~= component_text(c, 0, false));
    assert(component_text(c, 0, false) =~= numbered(c.ranked, c.ranked.len() as int));
    let two = seq![c, d];
    assert(components_text(two, 0) =~= Seq::empty());
    assert(components_text(two, 1) =~= component_text(c, 0, true));
    assert(components_text(two, 2) =~= component_text(c, 0, true) + component_text(d, 1, true));
    assert(components_text(two, 2) =~= "### ordering "@ + text::decimal(1) + "\n\n"@ + numbered(
        c.ranked,
        c.ranked.len() as int,
    ) + "\n"@ + "### ordering "@ + text::decimal(2) + "\n\n"@ + numbered(
        d.ranked,
        d.ranked.len() as int,
    ));
}

/// A copied ranking has its components first, and the items without votes behind a blank line.
pub proof fn law_copied_rankings(r: RankingsModel)
    ensures
        ({
            let ranked = components_text(r.components, r.components.len() as int);
            let rest = bullets(r.unranked, r.unranked.len() as int);
            &&& r.unranked.len() == 0 ==> rank_markdown(r) == ranked
            &&& r.unranked.len() > 0 && ranked.len() > 0 ==> rank_markdown(r) == ranked + "\n"@ + rest
            &&& r.unranked.len() > 0 && ranked.len() == 0 ==> rank_markdown(r) == rest
        }),
{
    let ranked = components_text(r.components, r.components.len() as int);
    let rest = bullets(r.unranked, r.unranked.len() as int);
    if ranked.len() == 0 {
        assert(ranked + Seq::<char>::empty() + rest =~= rest);
    }
}

/// A rank that became smaller is shown as a rise, and one that became larger as a fall.
pub proof fn law_rank_changes(n: nat)
    requires
        n > 0,
    ensures
        delta_text(-(n as int)) == " ↑"@ + text::decimal(n),
        delta_text(n as int) == " ↓"@ + text::decimal(n),
        delta_text(0).len() == 0,
{
}

/// The first entry of a history is where the item entered, and the last of several is where it
/// stands.
pub proof fn law_history_notes(i: int, n: int)
    requires
        0 <= i < n,
    ensures
        i == 0 ==> history_note(i, n) == " — entered"@,
        0 < i && i == n - 1 ==> history_note(i, n) == " — current"@,
        0 < i < n - 1 ==> history_note(i, n).len() == 0,
{
}

/// A query is kept behind its path, and a path that has one already stays as it is.
pub proof fn law_queries_are_kept(path: Seq<char>, q: Seq<char>)
    ensures
        q.len() > 0 ==> with_query(path, Some(q)) == path + "?"@ + q,
        q.len() == 0 ==> with_query(path, Some(q)) == path,
        with_query(path, None) == path,
        path.contains('?') ==> item_next(path, Some(q)) == path,
        !path.contains('?') ==> item_next(path, Some(q)) == with_query(path, Some(q)),
{
}

/// The trail of a post in a room: the room, its thread and the post, of which the last is the
/// current one.
pub proof fn law_room_trails(nav: NavModel, slug: Seq<char>, tag: Seq<char>, i: nat)
    ensures
        room_trail(nav, slug, None, None).len() == 1,
        room_trail(nav, slug, None, None)[0].current,
        room_trail(nav, slug, Some(tag), None).len() == 2,
        room_trail(nav, slug, Some(tag), Some(i)).len() == 3,
        ({
            let t = room_trail(nav, slug, Some(tag), Some(i));
            &&& t[0].label == "room:"@ + slug && t[0].href == nav.room_path && !t[0].current
            &&& t[1].label == "#"@ + tag && t[1].href == nav.thread_prefix + "/"@ + tag
                && !t[1].current
            &&& t[2].label == "post #"@ + text::decimal(i) && t[2].href == nav.thread_prefix + "/"@
                + tag + "/"@ + text::decimal(i) && t[2].current
        }),
        ({
            let t = room_trail(nav, slug, Some(tag), None);
            !t[0].current && t[1].current && t[1].href == nav.thread_prefix + "/"@ + tag
        }),
{
}

/// What is copied is the ranking of the hosts, that of the descendants where more than one level
/// is asked for, and otherwise that of the members of the item.
pub proof fn law_which_ranking_is_copied(
    c: ContentState,
    parent: Seq<char>,
    depth: nat,
    deep: RankingsModel,
    hosts: RankingsModel,
)
    ensures
        copied_rankings(Some(c), parent, depth, true, deep, hosts) == hosts,
        depth > 1 ==> copied_rankings(Some(c), parent, depth, false, deep, hosts) == deep,
        depth <= 1 ==> copied_rankings(Some(c), parent, depth, false, deep, hosts)
            == state::rankings_of(c, item_page::page_key(text::trim(parent))),
{
}

/// In front of a trail stand the room, where there is one, and the garden.
pub proof fn law_heads_of_trails(nav: NavModel, room: Seq<char>, at_root: bool)
    ensures
        nav.scope is None ==> garden_head(nav, at_root).len() == 1 && garden_head(nav, at_root)[0].href
            == "/~"@ && garden_head(nav, at_root)[0].label == "~"@ && (garden_head(nav, at_root)[0].current
            <==> at_root),
        nav.scope == Some(room) ==> garden_head(nav, at_root).len() == 2 && garden_head(
            nav,
            at_root,
        )[0].label == "room:"@ + nav::room_slug(room) && garden_head(nav, at_root)[0].href
            == nav.room_path && !garden_head(nav, at_root)[0].current && garden_head(nav, at_root)[1].href
            == nav.garden_prefix && (garden_head(nav, at_root)[1].current <==> at_root),
        nav.scope is None ==> external_head(nav, at_root).len() == 1 && external_head(
            nav,
            at_root,
        )[0].href == nav::external_prefix(nav) && (external_head(nav, at_root)[0].current <==> at_root),
        nav.scope == Some(room) ==> external_head(nav, at_root).len() == 2 && external_head(
            nav,
            at_root,
        )[1].href == nav::external_prefix(nav) && (external_head(nav, at_root)[1].current <==> at_root),
{
}

/// The links of a trail lead to the leaf of an item under the garden, and the root to the garden
/// itself.
pub proof fn law_links_of_trails(g: Seq<char>, t: Seq<char>)
    requires
        t.len() > 0,
        !t.contains('/'),
    ensures
        containment_href(g, "https://slug.social/~/"@ + t) == g + "/"@ + t,
        containment_href(g, "https://slug.social/~"@) == g,
{
    reveal_strlit("https://slug.social/~/");
    reveal_strlit("https://slug.social/~");
    paths::law_ontology_paths(t, t);
    let k = "https://slug.social/~/"@ + t;
    text::law_strip("https://slug.social/~/"@, t);
    assert(k.len() != paths::root_key().len());
    let none = Seq::<char>::empty();
    assert(paths::tilde_tail("https://slug.social/~"@) == Some(none));
    paths::lemma_rfind(none, '/');
    assert(paths::last_piece(none) == none);
}

/// An external path of a room leads under the external garden of the room.
pub proof fn law_external_paths_of_rooms(nav: NavModel, t: Seq<char>)
    ensures
        room_external_target(nav, "/-/"@ + t) == nav::external_prefix(nav) + "/"@ + t,
{
    text::law_strip("/-/"@, t);
}

/// The number of items of a ranking is that of all its components and of the items without votes.
pub proof fn law_ranked_total(
    components: Seq<state::ComponentModel>,
    c: state::ComponentModel,
    unranked: Seq<Seq<char>>,
)
    ensures
        ranked_total(RankingsModel { components: Seq::empty(), unranked }) == unranked.len(),
        ranked_total(RankingsModel { components: components.push(c), unranked }) == ranked_total(
            RankingsModel { components, unranked },
        ) + c.ranked.len(),
{
    let none = Seq::<state::ComponentModel>::empty();
    assert(component_sizes(none).len() == 0);
    let a = component_sizes(components);
    let b = component_sizes(components.push(c));
    assert(b =~= a.push(item_page::ranked_keys(c)));
    item_page::law_sibling_total(a, item_page::ranked_keys(c));
}

/// The command lines that show the body of an item.
pub proof fn law_body_commands(room: Seq<char>, item: Seq<char>)
    ensures
        body_cli(None, item) == "npx slugsocial public garden body "@ + garden::shown_path(item),
        body_cli(Some(room), item) == "npx slugsocial private "@ + room + " garden body "@
            + garden::shown_path(item),
{
}

/// The external garden is labelled with a hyphen, and an external item is linked under it by its
/// whole URL.
pub proof fn law_external_labels(nav: NavModel, room: Seq<char>, u: Seq<char>)
    requires
        paths::is_web(u),
        paths::tilde_tail(u) is None,
    ensures
        nav.scope is None ==> external_head(nav, true)[0].label == "-"@,
        nav.scope == Some(room) ==> external_head(nav, true)[0].label == "room:"@ + nav::room_slug(room)
            && external_head(nav, true)[0].href == nav.room_path && !external_head(nav, true)[0].current
            && external_head(nav, true)[1].label == "-"@,
        nav.scope == Some(room) ==> garden_head(nav, true)[1].label == "~"@,
        external_tail(u) == u,
{
    text::law_strip("-/"@, u);
}

} // verus!
