//! The expandable tree of the garden: its rows, its URLs, and what a toggle changes.

use vstd::prelude::*;
use vstd::utf8::encode_utf8;

use crate::outside;
use crate::paths::{self, ItemId};
use crate::sort;
use crate::state::{self, ChildrenRankings, ContentState};
use crate::text;

verus! {

/// The state of the tree in a query: which nodes are open, and which is selected.
#[derive(Debug, Clone)]
pub struct TreeQuery {
    pub open: Vec<String>,
    pub selected: Option<String>,
}

impl Default for TreeQuery {
    /// Nothing open, nothing selected.
    fn default() -> (r: TreeQuery)
        ensures
            r.open@.len() == 0,
            r.selected is None,
    {
        TreeQuery { open: Vec::new(), selected: None }
    }
}

/// The form that toggles a node.
#[derive(Debug)]
pub struct ToggleForm {
    pub root: String,
    pub target: String,
    pub open: Vec<String>,
    pub selected: Option<String>,
}

// ---------------------------------------------------------------------------
// Keys
// ---------------------------------------------------------------------------

/// The key of a written node. The root is spelled with a slash at its end.
pub open spec fn tree_key(s: Seq<char>) -> Seq<char> {
    let k = paths::canonical_item(s);
    if k == paths::root_key() {
        "https://slug.social/~/"@
    } else {
        k
    }
}

/// The key of a written node.
pub fn node_key(s: &str) -> (r: String)
    ensures
        r@ == tree_key(s@),
{
    let k: String = paths::canonicalize_item(s);
    let root: ItemId = ItemId::ontology_root();
    if text::same(k.as_str(), root.as_str()) {
        "https://slug.social/~/".to_owned()
    } else {
        k
    }
}

/// The keys of written nodes, without those that are empty.
pub open spec fn tree_keys(v: Seq<Seq<char>>) -> Seq<Seq<char>>
    decreases v.len(),
{
    if v.len() == 0 {
        Seq::empty()
    } else if tree_key(v.last()).len() > 0 {
        tree_keys(v.drop_last()).push(tree_key(v.last()))
    } else {
        tree_keys(v.drop_last())
    }
}

/// The open nodes of a query, each once, in order.
pub open spec fn open_set(v: Seq<Seq<char>>) -> Seq<Seq<char>> {
    sort::sorted_set(tree_keys(v))
}

/// The open nodes of a query, each once, in order.
pub fn canon_open_set(open: &Vec<String>) -> (r: Vec<String>)
    ensures
        text::views(r@) == open_set(text::views(open@)),
{
    let ghost ov = text::views(open@);
    let mut keys: Vec<String> = Vec::new();
    let mut i: usize = 0;
    assert(text::views(keys@) =~= tree_keys(ov.take(0)));
    while i < open.len()
        invariant
            i <= open.len(),
            ov == text::views(open@),
            text::views(keys@) == tree_keys(ov.take(i as int)),
        decreases open.len() - i,
    {
        assert(ov.take(i + 1).drop_last() =~= ov.take(i as int));
        assert(ov.take(i + 1).last() == open@[i as int]@);
        let k: String = node_key(open[i].as_str());
        if !k.as_str().is_empty() {
            let ghost before = text::views(keys@);
            let ghost kv = k@;
            keys.push(k);
            assert(text::views(keys@) =~= before.push(kv));
        }
        i = i + 1;
    }
    assert(ov.take(ov.len() as int) =~= ov);
    sort::sort_unique(&keys)
}

/// The selected node of a query.
pub open spec fn selected_key(s: Option<Seq<char>>) -> Option<Seq<char>> {
    match s {
        Some(t) => if tree_key(t).len() > 0 {
            Some(tree_key(t))
        } else {
            None
        },
        None => None,
    }
}

/// The selected node of a query.
pub fn canon_selected(s: &Option<String>) -> (r: Option<String>)
    ensures
        text::opt_view(r) == selected_key(text::opt_view(*s)),
{
    match s {
        Some(t) => {
            let k: String = node_key(t.as_str());
            if k.as_str().is_empty() {
                None
            } else {
                Some(k)
            }
        },
        None => None,
    }
}

/// The root that a path behind `/tree/` names.
pub open spec fn root_of_path(path: Option<Seq<char>>) -> Seq<char> {
    match path {
        None => tree_key("~/"@),
        Some(p) => if text::trim(p).len() == 0 {
            tree_key("~/"@)
        } else {
            tree_key("~/"@ + text::trim_char_start(p, '/'))
        },
    }
}

/// The root that a path behind `/tree/` names.
pub fn tree_root_from_path(path: Option<&str>) -> (r: String)
    ensures
        r@ == root_of_path(text::opt_str(path)),
{
    match path {
        None => node_key("~/"),
        Some(p) => {
            let c: Vec<char> = text::chars(p);
            if text::trimmed(&c).len() == 0 {
                node_key("~/")
            } else {
                let tail: String = text::string(&text::without_leading(&c, '/'));
                let s: String = text::cat("~/", tail.as_str());
                node_key(s.as_str())
            }
        },
    }
}

/// Whether a key lies in the private namespace of an owner: its first segment is a UUID.
pub open spec fn is_private(key: Seq<char>) -> bool {
    match text::strip_prefix(key, "https://slug.social/~/"@) {
        Some(tail) => outside::is_uuid(text::before(tail, '/')),
        None => false,
    }
}

/// Whether a key lies in the private namespace of an owner.
pub fn in_private_namespace(key: &str) -> (r: bool)
    ensures
        r == is_private(key@),
{
    match text::without_prefix(&text::chars(key), "https://slug.social/~/") {
        Some(tail) => {
            let first: String = text::string(&text::upto(&tail, '/'));
            outside::parses_as_uuid(first.as_str())
        },
        None => false,
    }
}

// ---------------------------------------------------------------------------
// URLs
// ---------------------------------------------------------------------------

/// `s` without leading copies of a text.
pub open spec fn without_copies(s: Seq<char>, pat: Seq<char>) -> Seq<char>
    decreases s.len(),
{
    if pat.len() > 0 && text::has_prefix(s, pat) {
        without_copies(s.skip(pat.len() as int), pat)
    } else {
        s
    }
}

fn strip_copies(s: &Vec<char>, pat: &str) -> (r: Vec<char>)
    requires
        pat@.len() > 0,
    ensures
        r@ == without_copies(s@, pat@),
    decreases s@.len(),
{
    match text::without_prefix(s, pat) {
        Some(t) => {
            assert(t@ =~= s@.skip(pat@.len() as int));
            strip_copies(&t, pat)
        },
        None => text::cut(s, 0, s.len()),
    }
}

/// The parameters of the open nodes.
pub open spec fn open_params(open: Seq<Seq<char>>) -> Seq<Seq<char>> {
    Seq::new(open.len(), |i: int| "open="@ + outside::percent(open[i]))
}

/// The parameters of a tree.
pub open spec fn tree_params(open: Seq<Seq<char>>, selected: Option<Seq<char>>) -> Seq<Seq<char>> {
    match selected {
        Some(s) => open_params(open).push("selected="@ + outside::percent(s)),
        None => open_params(open),
    }
}

/// The path of the tree under a root.
pub open spec fn tree_path(root: Seq<char>) -> Seq<char> {
    text::trim_char_end("/tree/"@ + without_copies(root, "https://slug.social/~/"@), '/')
}

/// The URL of a tree in a state.
pub open spec fn tree_href(root: Seq<char>, open: Seq<Seq<char>>, selected: Option<Seq<char>>) -> Seq<char> {
    let params = tree_params(open, selected);
    if params.len() == 0 {
        tree_path(root)
    } else {
        tree_path(root) + "?"@ + text::join(params, "&"@)
    }
}

/// The URL of a tree in a state.
pub fn href_for(root: &str, open: &Vec<String>, selected: Option<&str>) -> (r: String)
    ensures
        r@ == tree_href(root@, text::views(open@), text::opt_str(selected)),
{
    let ghost ov = text::views(open@);
    let mut parts: Vec<String> = Vec::new();
    let mut i: usize = 0;
    while i < open.len()
        invariant
            i <= open.len(),
            parts.len() == i,
            ov == text::views(open@),
            forall|j: int|
                0 <= j < i ==> (#[trigger] parts@[j])@ == "open="@ + outside::percent(ov[j]),
        decreases open.len() - i,
    {
        assert(ov[i as int] == open@[i as int]@);
        let q: String = outside::url_encode(open[i].as_str());
        parts.push(text::cat("open=", q.as_str()));
        i = i + 1;
    }
    assert(text::views(parts@) =~= open_params(ov));
    match selected {
        Some(s) => {
            let q: String = outside::url_encode(s);
            let p: String = text::cat("selected=", q.as_str());
            let ghost pv = p@;
            parts.push(p);
            assert(text::views(parts@) =~= open_params(ov).push(pv));
        },
        None => {},
    }
    assert(text::views(parts@).len() == parts@.len());
    proof {
        reveal_strlit("https://slug.social/~/");
    }
    let tail: String = text::string(&strip_copies(&text::chars(root), "https://slug.social/~/"));
    let whole: String = text::cat("/tree/", tail.as_str());
    let base: String = text::string(&text::without_trailing(&text::chars(whole.as_str()), '/'));
    if parts.len() == 0 {
        base
    } else {
        let q: String = text::joined(&parts, "&");
        text::cat3(base.as_str(), "?", q.as_str())
    }
}

// ---------------------------------------------------------------------------
// Ids
// ---------------------------------------------------------------------------

/// The start value of the hash.
pub const FNV_BASIS: u64 = 1469598103934665603;

/// The factor of the hash.
pub const FNV_PRIME: u64 = 1099511628211;

/// The FNV-1a hash of bytes.
pub open spec fn fnv(bytes: Seq<u8>) -> u64
    decreases bytes.len(),
{
    if bytes.len() == 0 {
        FNV_BASIS
    } else {
        (((fnv(bytes.drop_last()) ^ (bytes.last() as u64)) * FNV_PRIME) % 0x1_0000_0000_0000_0000) as u64
    }
}

/// The last `n` hexadecimal digits of a number.
pub open spec fn hex_digits(h: nat, n: nat) -> Seq<char>
    decreases n,
{
    if n == 0 {
        Seq::empty()
    } else {
        hex_digits(h / 16, (n - 1) as nat).push(outside::hex_lower((h % 16) as int))
    }
}

/// The id of the element for a node.
pub open spec fn element_id(path: Seq<char>) -> Seq<char> {
    "node-"@ + hex_digits(fnv(encode_utf8(path)) as nat, 16)
}

fn push_hex(h: u64, n: usize, out: &mut String)
    ensures
        final(out)@ == old(out)@ + hex_digits(h as nat, n as nat),
    decreases n,
{
    let ghost before = out@;
    if n == 0 {
        assert(out@ =~= before + hex_digits(h as nat, 0));
        return;
    }
    push_hex(h / 16, n - 1, out);
    let d: u8 = (h % 16) as u8;
    let code: u8 = if d < 10 {
        48 + d
    } else {
        87 + d
    };
    let c: char = code as char;
    assert(c == outside::hex_lower((h % 16) as int));
    out.push(c);
    assert(out@ =~= before + hex_digits(h as nat, n as nat));
}

/// The id of the element for a node, the same in every rendering.
pub fn node_id(path: &str) -> (r: String)
    ensures
        r@ == element_id(path@),
{
    let bytes: Vec<u8> = path.as_bytes_vec();
    let mut h: u64 = FNV_BASIS;
    let mut i: usize = 0;
    assert(bytes@.take(0).len() == 0);
    while i < bytes.len()
        invariant
            i <= bytes.len(),
            h == fnv(bytes@.take(i as int)),
        decreases bytes.len() - i,
    {
        assert(bytes@.take(i + 1).drop_last() =~= bytes@.take(i as int));
        let x: u64 = h ^ (bytes[i] as u64);
        assert(x * FNV_PRIME <= 0xffff_ffff_ffff_ffff * 1099511628211) by (nonlinear_arith)
            requires
                x <= 0xffff_ffff_ffff_ffff,
                FNV_PRIME == 1099511628211,
        ;
        let wide: u128 = (x as u128) * (FNV_PRIME as u128);
        h = (wide % 0x1_0000_0000_0000_0000) as u64;
        i = i + 1;
    }
    assert(bytes@.take(bytes@.len() as int) =~= bytes@);
    let mut out: String = "node-".to_owned();
    push_hex(h, 16, &mut out);
    out
}

// ---------------------------------------------------------------------------
// Rows
// ---------------------------------------------------------------------------

/// Those of some items that are not private.
pub open spec fn public_only(v: Seq<Seq<char>>) -> Seq<Seq<char>>
    decreases v.len(),
{
    if v.len() == 0 {
        Seq::empty()
    } else if is_private(v.last()) {
        public_only(v.drop_last())
    } else {
        public_only(v.drop_last()).push(v.last())
    }
}

/// The items of a ranking in order: those of the components, then those without votes.
pub open spec fn ranked_items(components: Seq<state::ComponentModel>) -> Seq<Seq<char>>
    decreases components.len(),
{
    if components.len() == 0 {
        Seq::empty()
    } else {
        ranked_items(components.drop_last()) + Seq::new(
            components.last().ranked.len(),
            |i: int| components.last().ranked[i].item,
        )
    }
}

/// The children of a node: its ranked members, without private ones.
pub open spec fn children_of(c: ContentState, parent: Seq<char>) -> Seq<Seq<char>> {
    let r = state::rankings_of(c, paths::normal_key(parent));
    public_only(ranked_items(r.components) + r.unranked)
}

/// The children of a node, ranked, without private ones.
pub fn ranked_children_public(content: &ContentState, parent: &str) -> (r: Vec<String>)
    ensures
        text::views(r@) == children_of(*content, parent@),
{
    let key: ItemId = ItemId::opaque(parent.to_owned()).normalized_storage();
    let rankings: ChildrenRankings = content.children_rankings(&key);
    let ghost comps = rankings@.components;
    let mut all: Vec<String> = Vec::new();
    let mut i: usize = 0;
    assert(text::views(all@) =~= ranked_items(comps.take(0)));
    while i < rankings.component_rankings.len()
        invariant
            i <= rankings.component_rankings.len(),
            comps == rankings@.components,
            text::views(all@) == ranked_items(comps.take(i as int)),
        decreases rankings.component_rankings.len() - i,
    {
        let ghost before = text::views(all@);
        assert(comps.take(i + 1).drop_last() =~= comps.take(i as int));
        assert(comps.take(i + 1).last() == rankings.component_rankings@[i as int]@);
        let ghost here = Seq::new(
            comps[i as int].ranked.len(),
            |j: int| comps[i as int].ranked[j].item,
        );
        let comp: &state::ScopedComponent = &rankings.component_rankings[i];
        let mut k: usize = 0;
        assert(before + here.take(0) =~= before);
        while k < comp.ranked.len()
            invariant
                k <= comp.ranked.len(),
                i < rankings.component_rankings.len(),
                comps == rankings@.components,
                *comp == rankings.component_rankings@[i as int],
                here == Seq::new(
                    comps[i as int].ranked.len(),
                    |j: int| comps[i as int].ranked[j].item,
                ),
                text::views(all@) == before + here.take(k as int),
            decreases comp.ranked.len() - k,
        {
            let ghost mid = text::views(all@);
            assert(comps[i as int] == comp@);
            assert(here[k as int] == comp.ranked@[k as int].item@);
            all.push(comp.ranked[k].item.to_storage_string());
            assert(text::views(all@) =~= mid.push(here[k as int]));
            assert(before + here.take(k + 1) =~= mid.push(here[k as int]));
            k = k + 1;
        }
        assert(here.take(here.len() as int) =~= here);
        i = i + 1;
    }
    assert(comps.take(comps.len() as int) =~= comps);
    let ghost ranked = text::views(all@);
    let ghost lone = rankings@.unranked;
    let mut j: usize = 0;
    assert(ranked + lone.take(0) =~= ranked);
    while j < rankings.unranked_items.len()
        invariant
            j <= rankings.unranked_items.len(),
            lone == rankings@.unranked,
            text::views(all@) == ranked + lone.take(j as int),
        decreases rankings.unranked_items.len() - j,
    {
        let ghost mid = text::views(all@);
        assert(lone[j as int] == rankings.unranked_items@[j as int]@);
        all.push(rankings.unranked_items[j].to_storage_string());
        assert(text::views(all@) =~= mid.push(lone[j as int]));
        assert(ranked + lone.take(j + 1) =~= mid.push(lone[j as int]));
        j = j + 1;
    }
    assert(lone.take(lone.len() as int) =~= lone);
    let ghost av = text::views(all@);
    let mut r: Vec<String> = Vec::new();
    let mut m: usize = 0;
    assert(text::views(r@) =~= public_only(av.take(0)));
    while m < all.len()
        invariant
            m <= all.len(),
            av == text::views(all@),
            text::views(r@) == public_only(av.take(m as int)),
        decreases all.len() - m,
    {
        assert(av.take(m + 1).drop_last() =~= av.take(m as int));
        assert(av.take(m + 1).last() == all@[m as int]@);
        if !in_private_namespace(all[m].as_str()) {
            let ghost before = text::views(r@);
            r.push(all[m].clone());
            assert(text::views(r@) =~= before.push(av[m as int]));
        }
        m = m + 1;
    }
    assert(av.take(av.len() as int) =~= av);
    r
}

/// A row of the tree.
pub struct TreeRow {
    pub id: String,
    pub path: String,
    pub label: String,
    pub depth: usize,
    pub is_open: bool,
    pub is_selected: bool,
    pub has_children: bool,
    pub href: String,
}

/// The mathematical value of a [`TreeRow`].
pub struct TreeRowModel {
    pub id: Seq<char>,
    pub path: Seq<char>,
    pub label: Seq<char>,
    pub depth: nat,
    pub is_open: bool,
    pub is_selected: bool,
    pub has_children: bool,
    pub href: Seq<char>,
}

impl View for TreeRow {
    type V = TreeRowModel;

    open spec fn view(&self) -> TreeRowModel {
        TreeRowModel {
            id: self.id@,
            path: self.path@,
            label: self.label@,
            depth: self.depth as nat,
            is_open: self.is_open,
            is_selected: self.is_selected,
            has_children: self.has_children,
            href: self.href@,
        }
    }
}

/// The name of a node without the root.
pub open spec fn node_label(path: Seq<char>) -> Seq<char> {
    match text::strip_prefix(path, "https://slug.social/~/"@) {
        Some(t) => t,
        None => path,
    }
}

/// The row of a node.
pub open spec fn row_of(
    c: ContentState,
    path: Seq<char>,
    root: Seq<char>,
    open: Seq<Seq<char>>,
    selected: Option<Seq<char>>,
    depth: nat,
) -> TreeRowModel {
    TreeRowModel {
        id: element_id(path),
        path,
        label: node_label(path),
        depth,
        is_open: open.contains(path),
        is_selected: selected == Some(path),
        has_children: state::members_of(c, paths::normal_key(path)).len() > 0,
        href: tree_href(root, open, Some(path)),
    }
}

/// The rows of a node and of what is open below it, down to `fuel` levels. As many levels as
/// there are open nodes are all there are, unless an open node lies below itself:
/// [`law_open_levels_suffice`].
pub open spec fn node_rows(
    c: ContentState,
    path: Seq<char>,
    root: Seq<char>,
    open: Seq<Seq<char>>,
    selected: Option<Seq<char>>,
    depth: nat,
    fuel: nat,
) -> Seq<TreeRowModel>
    decreases fuel, 0nat,
{
    let row = row_of(c, path, root, open, selected, depth);
    if open.contains(path) && fuel > 0 {
        seq![row] + rows_of(
            c,
            children_of(c, path),
            root,
            open,
            selected,
            depth + 1,
            (fuel - 1) as nat,
        )
    } else {
        seq![row]
    }
}

/// The rows of some nodes.
pub open spec fn rows_of(
    c: ContentState,
    nodes: Seq<Seq<char>>,
    root: Seq<char>,
    open: Seq<Seq<char>>,
    selected: Option<Seq<char>>,
    depth: nat,
    fuel: nat,
) -> Seq<TreeRowModel>
    decreases fuel, nodes.len(),
{
    if nodes.len() == 0 {
        Seq::empty()
    } else {
        rows_of(c, nodes.drop_last(), root, open, selected, depth, fuel) + node_rows(
            c,
            nodes.last(),
            root,
            open,
            selected,
            depth,
            fuel,
        )
    }
}

fn push_node(
    content: &ContentState,
    path: &str,
    root: &str,
    open: &Vec<String>,
    selected: Option<&str>,
    depth: usize,
    fuel: usize,
    out: &mut Vec<TreeRow>,
)
    requires
        depth + fuel < usize::MAX,
    ensures
        state::rows(final(out)@) == state::rows(old(out)@) + node_rows(
            *content,
            path@,
            root@,
            text::views(open@),
            text::opt_str(selected),
            depth as nat,
            fuel as nat,
        ),
    decreases fuel, 0nat,
{
    let ghost start = state::rows(out@);
    let key: ItemId = ItemId::opaque(path.to_owned()).normalized_storage();
    let members: Vec<ItemId> = content.members_of(&key);
    assert(paths::keys(members@).len() == members@.len());
    let label: String = match text::without_prefix(&text::chars(path), "https://slug.social/~/") {
        Some(t) => text::string(&t),
        None => path.to_owned(),
    };
    let is_open: bool = text::contains(open, path);
    let is_selected: bool = match selected {
        Some(s) => text::same(s, path),
        None => false,
    };
    let row = TreeRow {
        id: node_id(path),
        path: path.to_owned(),
        label,
        depth,
        is_open,
        is_selected,
        has_children: members.len() > 0,
        href: href_for(root, open, Some(path)),
    };
    assert(row@ == row_of(
        *content,
        path@,
        root@,
        text::views(open@),
        text::opt_str(selected),
        depth as nat,
    ));
    proof {
        state::lemma_rows_push(out@, row);
    }
    out.push(row);
    assert(state::rows(out@) =~= start + seq![row@]);
    if is_open && fuel > 0 {
        let children: Vec<String> = ranked_children_public(content, path);
        push_nodes(content, &children, root, open, selected, depth + 1, fuel - 1, out);
        assert(state::rows(out@) =~= start + node_rows(
            *content,
            path@,
            root@,
            text::views(open@),
            text::opt_str(selected),
            depth as nat,
            fuel as nat,
        ));
    }
}

fn push_nodes(
    content: &ContentState,
    nodes: &Vec<String>,
    root: &str,
    open: &Vec<String>,
    selected: Option<&str>,
    depth: usize,
    fuel: usize,
    out: &mut Vec<TreeRow>,
)
    requires
        depth + fuel < usize::MAX,
    ensures
        state::rows(final(out)@) == state::rows(old(out)@) + rows_of(
            *content,
            text::views(nodes@),
            root@,
            text::views(open@),
            text::opt_str(selected),
            depth as nat,
            fuel as nat,
        ),
    decreases fuel, 1nat,
{
    let ghost start = state::rows(out@);
    let ghost nv = text::views(nodes@);
    let ghost sv = text::opt_str(selected);
    let ghost ov = text::views(open@);
    let mut i: usize = 0;
    assert(start + rows_of(*content, nv.take(0), root@, ov, sv, depth as nat, fuel as nat)
        =~= start);
    while i < nodes.len()
        invariant
            i <= nodes.len(),
            depth + fuel < usize::MAX,
            nv == text::views(nodes@),
            sv == text::opt_str(selected),
            ov == text::views(open@),
            state::rows(out@) == start + rows_of(
                *content,
                nv.take(i as int),
                root@,
                ov,
                sv,
                depth as nat,
                fuel as nat,
            ),
        decreases nodes.len() - i,
    {
        assert(nv.take(i + 1).drop_last() =~= nv.take(i as int));
        assert(nv.take(i + 1).last() == nodes@[i as int]@);
        let ghost before = rows_of(
            *content,
            nv.take(i as int),
            root@,
            ov,
            sv,
            depth as nat,
            fuel as nat,
        );
        push_node(content, nodes[i].as_str(), root, open, selected, depth, fuel, out);
        assert(forall|x: Seq<TreeRowModel>| #[trigger] (start + before + x) =~= start + (before + x));
        i = i + 1;
    }
    assert(nv.take(nv.len() as int) =~= nv);
}

/// The rows of the tree under a root: its children, and what is open below them.
pub fn tree_rows(content: &ContentState, root: &str, open: &Vec<String>, selected: Option<&str>) -> (r:
    Vec<TreeRow>)
    requires
        open@.len() + 1 < usize::MAX,
    ensures
        state::rows(r@) == rows_of(
            *content,
            children_of(*content, root@),
            root@,
            text::views(open@),
            text::opt_str(selected),
            0,
            (open@.len() + 1) as nat,
        ),
{
    let roots: Vec<String> = ranked_children_public(content, root);
    let mut out: Vec<TreeRow> = Vec::new();
    let fuel: usize = open.len() + 1;
    push_nodes(content, &roots, root, open, selected, 0, fuel, &mut out);
    assert(state::rows(out@) =~= rows_of(
        *content,
        children_of(*content, root@),
        root@,
        text::views(open@),
        text::opt_str(selected),
        0,
        (open@.len() + 1) as nat,
    ));
    out
}

/// Whether open nodes lie one below the other.
pub open spec fn is_chain(c: ContentState, open: Seq<Seq<char>>, p: Seq<Seq<char>>) -> bool {
    &&& forall|i: int| 0 <= i < p.len() ==> open.contains(#[trigger] p[i])
    &&& forall|i: int, j: int|
        0 <= i && j == i + 1 && j < p.len() ==> children_of(c, #[trigger] p[i]).contains(
            #[trigger] p[j],
        )
}

/// Whether no open node lies below itself.
pub open spec fn loop_free(c: ContentState, open: Seq<Seq<char>>) -> bool {
    forall|p: Seq<Seq<char>>| #[trigger] is_chain(c, open, p) ==> p.no_duplicates()
}

/// Whether a node lies below a chain.
spec fn hangs_below(c: ContentState, chain: Seq<Seq<char>>, path: Seq<char>) -> bool {
    chain.len() > 0 ==> children_of(c, chain.last()).contains(path)
}

proof fn lemma_chain_is_short(c: ContentState, open: Seq<Seq<char>>, p: Seq<Seq<char>>)
    requires
        loop_free(c, open),
        is_chain(c, open, p),
    ensures
        p.len() <= open.len(),
{
    p.unique_seq_to_set();
    assert(p.to_set().subset_of(open.to_set())) by {
        assert forall|x: Seq<char>| p.to_set().contains(x) implies open.to_set().contains(x) by {
            let i = choose|i: int| 0 <= i < p.len() && p[i] == x;
            assert(open.contains(p[i]));
        }
    }
    vstd::seq_lib::seq_to_set_is_finite(open);
    vstd::set_lib::lemma_len_subset(p.to_set(), open.to_set());
    open.lemma_cardinality_of_set();
}

proof fn lemma_node_levels(
    c: ContentState,
    path: Seq<char>,
    root: Seq<char>,
    open: Seq<Seq<char>>,
    selected: Option<Seq<char>>,
    depth: nat,
    fuel: nat,
    more: nat,
    chain: Seq<Seq<char>>,
)
    requires
        loop_free(c, open),
        is_chain(c, open, chain),
        hangs_below(c, chain, path),
        fuel + chain.len() >= open.len(),
        more >= fuel,
    ensures
        node_rows(c, path, root, open, selected, depth, fuel) == node_rows(
            c,
            path,
            root,
            open,
            selected,
            depth,
            more,
        ),
    decreases fuel, 0nat,
{
    if open.contains(path) {
        let next = chain.push(path);
        assert(is_chain(c, open, next)) by {
            assert forall|i: int| 0 <= i < next.len() implies open.contains(#[trigger] next[i]) by {
                if i < chain.len() {
                    assert(next[i] == chain[i]);
                }
            }
            assert forall|i: int, j: int| 0 <= i && j == i + 1 && j < next.len() implies children_of(
                c,
                #[trigger] next[i],
            ).contains(#[trigger] next[j]) by {
                assert(next[i] == chain[i]);
                if j < chain.len() {
                    assert(next[j] == chain[j]);
                } else {
                    assert(chain.last() == chain[i]);
                }
            }
        }
        lemma_chain_is_short(c, open, next);
        let kids = children_of(c, path);
        assert forall|i: int| 0 <= i < kids.len() implies hangs_below(c, next, #[trigger] kids[i]) by {
            assert(next.last() == path);
        }
        lemma_rows_levels(
            c,
            kids,
            root,
            open,
            selected,
            depth + 1,
            (fuel - 1) as nat,
            (more - 1) as nat,
            next,
        );
    }
}

proof fn lemma_rows_levels(
    c: ContentState,
    nodes: Seq<Seq<char>>,
    root: Seq<char>,
    open: Seq<Seq<char>>,
    selected: Option<Seq<char>>,
    depth: nat,
    fuel: nat,
    more: nat,
    chain: Seq<Seq<char>>,
)
    requires
        loop_free(c, open),
        is_chain(c, open, chain),
        forall|i: int| 0 <= i < nodes.len() ==> hangs_below(c, chain, #[trigger] nodes[i]),
        fuel + chain.len() >= open.len(),
        more >= fuel,
    ensures
        rows_of(c, nodes, root, open, selected, depth, fuel) == rows_of(
            c,
            nodes,
            root,
            open,
            selected,
            depth,
            more,
        ),
    decreases fuel, nodes.len(),
{
    if nodes.len() > 0 {
        let less = nodes.drop_last();
        assert forall|i: int| 0 <= i < less.len() implies hangs_below(c, chain, #[trigger] less[i]) by {
            assert(less[i] == nodes[i]);
        }
        lemma_rows_levels(c, less, root, open, selected, depth, fuel, more, chain);
        assert(nodes[nodes.len() - 1] == nodes.last());
        lemma_node_levels(c, nodes.last(), root, open, selected, depth, fuel, more, chain);
    }
}

/// As many levels as there are open nodes are all that a tree has: where no open node lies below
/// itself, more levels give the same rows.
pub proof fn law_open_levels_suffice(
    c: ContentState,
    root: Seq<char>,
    open: Seq<Seq<char>>,
    selected: Option<Seq<char>>,
    more: nat,
)
    requires
        loop_free(c, open),
        more >= open.len(),
    ensures
        rows_of(c, children_of(c, root), root, open, selected, 0, open.len()) == rows_of(
            c,
            children_of(c, root),
            root,
            open,
            selected,
            0,
            more,
        ),
{
    lemma_rows_levels(
        c,
        children_of(c, root),
        root,
        open,
        selected,
        0,
        open.len(),
        more,
        Seq::empty(),
    );
}

// ---------------------------------------------------------------------------
// Toggling
// ---------------------------------------------------------------------------

/// Those of some texts that differ from one.
pub open spec fn without_text(v: Seq<Seq<char>>, x: Seq<char>) -> Seq<Seq<char>>
    decreases v.len(),
{
    if v.len() == 0 {
        Seq::empty()
    } else if v.last() == x {
        without_text(v.drop_last(), x)
    } else {
        without_text(v.drop_last(), x).push(v.last())
    }
}

/// The open nodes after one was toggled: closed where it was open, open where it was closed.
pub open spec fn toggled(open: Seq<Seq<char>>, target: Seq<char>) -> Seq<Seq<char>> {
    if open.contains(target) {
        without_text(open, target)
    } else {
        sort::sorted_set(open.push(target))
    }
}

/// Toggles a node.
pub fn toggle(open: &Vec<String>, target: &str) -> (r: Vec<String>)
    ensures
        text::views(r@) == toggled(text::views(open@), target@),
{
    let ghost ov = text::views(open@);
    if text::contains(open, target) {
        let mut r: Vec<String> = Vec::new();
        let mut i: usize = 0;
        assert(text::views(r@) =~= without_text(ov.take(0), target@));
        while i < open.len()
            invariant
                i <= open.len(),
                ov == text::views(open@),
                text::views(r@) == without_text(ov.take(i as int), target@),
            decreases open.len() - i,
        {
            assert(ov.take(i + 1).drop_last() =~= ov.take(i as int));
            assert(ov.take(i + 1).last() == open@[i as int]@);
            if !text::same(open[i].as_str(), target) {
                let ghost before = text::views(r@);
                r.push(open[i].clone());
                assert(text::views(r@) =~= before.push(ov[i as int]));
            }
            i = i + 1;
        }
        assert(ov.take(ov.len() as int) =~= ov);
        r
    } else {
        let mut more: Vec<String> = text::copies(open);
        let ghost before = text::views(more@);
        more.push(target.to_owned());
        assert(text::views(more@) =~= before.push(target@));
        sort::sort_unique(&more)
    }
}

/// Whether texts ascend strictly.
pub open spec fn ascends(v: Seq<Seq<char>>) -> bool {
    forall|i: int, j: int|
        0 <= i < j < v.len() ==> text::text_lt(#[trigger] v[i], #[trigger] v[j])
}

proof fn lemma_without_text(v: Seq<Seq<char>>, x: Seq<char>)
    ensures
        forall|y: Seq<char>|
            #[trigger] without_text(v, x).contains(y) <==> v.contains(y) && y != x,
        ascends(v) ==> ascends(without_text(v, x)),
    decreases v.len(),
{
    if v.len() > 0 {
        let front = v.drop_last();
        lemma_without_text(front, x);
        let w = without_text(v, x);
        let wf = without_text(front, x);
        assert forall|y: Seq<char>| #[trigger] w.contains(y) <==> v.contains(y) && y != x by {
            if w.contains(y) {
                let k = choose|k: int| 0 <= k < w.len() && w[k] == y;
                if k < wf.len() {
                    assert(wf[k] == y);
                    assert(wf.contains(y));
                    let m = choose|m: int| 0 <= m < front.len() && front[m] == y;
                    assert(v[m] == y);
                } else {
                    assert(v[v.len() - 1] == y);
                }
            }
            if v.contains(y) && y != x {
                let m = choose|m: int| 0 <= m < v.len() && v[m] == y;
                if m < front.len() {
                    assert(front[m] == y);
                    assert(front.contains(y));
                    assert(wf.contains(y));
                    let k = choose|k: int| 0 <= k < wf.len() && wf[k] == y;
                    assert(w[k] == y);
                } else {
                    assert(w.last() == y);
                }
            }
        }
        if ascends(v) {
            assert(ascends(front)) by {
                assert forall|i: int, j: int| 0 <= i < j < front.len() implies text::text_lt(
                    #[trigger] front[i],
                    #[trigger] front[j],
                ) by {
                    assert(front[i] == v[i] && front[j] == v[j]);
                }
            }
            assert forall|i: int, j: int| 0 <= i < j < w.len() implies text::text_lt(
                #[trigger] w[i],
                #[trigger] w[j],
            ) by {
                assert(w[i] == wf[i]);
                if j < wf.len() {
                    assert(w[j] == wf[j]);
                } else {
                    assert(wf.contains(wf[i]));
                    let m = choose|m: int| 0 <= m < front.len() && front[m] == wf[i];
                    assert(v[m] == wf[i]);
                    assert(w[j] == v[v.len() - 1]);
                }
            }
        }
    }
}

proof fn lemma_ascending_is_unique(a: Seq<Seq<char>>, b: Seq<Seq<char>>)
    requires
        ascends(a),
        ascends(b),
        forall|x: Seq<char>| #[trigger] a.contains(x) <==> b.contains(x),
    ensures
        a == b,
    decreases a.len(),
{
    if a.len() == 0 {
        if b.len() > 0 {
            assert(b.contains(b[0]));
            assert(a.contains(b[0]));
        }
        assert(a =~= b);
    } else {
        assert(a.contains(a.last())) by {
            assert(a[a.len() - 1] == a.last());
        }
        assert(b.contains(a.last()));
        let i = choose|i: int| 0 <= i < b.len() && b[i] == a.last();
        assert(b.contains(b.last())) by {
            assert(b[b.len() - 1] == b.last());
        }
        assert(a.contains(b.last()));
        let j = choose|j: int| 0 <= j < a.len() && a[j] == b.last();
        if i < b.len() - 1 {
            assert(text::text_lt(b[i], b[b.len() - 1]));
            text::lemma_text_order(a.last(), b.last());
            if j < a.len() - 1 {
                assert(text::text_lt(a[j], a[a.len() - 1]));
            }
            assert(false);
        }
        assert(a.last() == b.last());
        let fa = a.drop_last();
        let fb = b.drop_last();
        assert(ascends(fa)) by {
            assert forall|p: int, q: int| 0 <= p < q < fa.len() implies text::text_lt(
                #[trigger] fa[p],
                #[trigger] fa[q],
            ) by {
                assert(fa[p] == a[p] && fa[q] == a[q]);
            }
        }
        assert(ascends(fb)) by {
            assert forall|p: int, q: int| 0 <= p < q < fb.len() implies text::text_lt(
                #[trigger] fb[p],
                #[trigger] fb[q],
            ) by {
                assert(fb[p] == b[p] && fb[q] == b[q]);
            }
        }
        text::lemma_text_order(a.last(), a.last());
        assert forall|x: Seq<char>| #[trigger] fa.contains(x) <==> fb.contains(x) by {
            if fa.contains(x) {
                let k = choose|k: int| 0 <= k < fa.len() && fa[k] == x;
                assert(a[k] == x);
                assert(text::text_lt(a[k], a[a.len() - 1]));
                assert(a.contains(x));
                assert(b.contains(x));
                let m = choose|m: int| 0 <= m < b.len() && b[m] == x;
                assert(m < b.len() - 1);
                assert(fb[m] == x);
            }
            if fb.contains(x) {
                let k = choose|k: int| 0 <= k < fb.len() && fb[k] == x;
                assert(b[k] == x);
                assert(text::text_lt(b[k], b[b.len() - 1]));
                assert(b.contains(x));
                assert(a.contains(x));
                let m = choose|m: int| 0 <= m < a.len() && a[m] == x;
                assert(m < a.len() - 1);
                assert(fa[m] == x);
            }
        }
        lemma_ascending_is_unique(fa, fb);
        assert(a =~= fa.push(a.last()));
        assert(b =~= fb.push(b.last()));
    }
}

/// Toggling a node twice leaves the open nodes as they were.
pub proof fn law_toggling_twice(open: Seq<Seq<char>>, target: Seq<char>)
    requires
        ascends(open),
    ensures
        toggled(toggled(open, target), target) == open,
{
    let once = toggled(open, target);
    if open.contains(target) {
        lemma_without_text(open, target);
        assert(!once.contains(target));
        let twice = sort::sorted_set(once.push(target));
        sort::law_sorted_set(once.push(target));
        assert forall|x: Seq<char>| #[trigger] twice.contains(x) <==> open.contains(x) by {
            let more = once.push(target);
            if more.contains(x) {
                let k = choose|k: int| 0 <= k < more.len() && more[k] == x;
                if k < once.len() {
                    assert(once[k] == x);
                    assert(once.contains(x));
                }
            }
            if open.contains(x) {
                if x == target {
                    assert(more[once.len() as int] == x);
                } else {
                    assert(once.contains(x));
                    let k = choose|k: int| 0 <= k < once.len() && once[k] == x;
                    assert(more[k] == x);
                }
            }
        }
        lemma_ascending_is_unique(twice, open);
    } else {
        sort::law_sorted_set(open.push(target));
        assert(open.push(target)[open.len() as int] == target);
        assert(once.contains(target));
        lemma_without_text(once, target);
        let twice = without_text(once, target);
        assert forall|x: Seq<char>| #[trigger] twice.contains(x) <==> open.contains(x) by {
            let more = open.push(target);
            if once.contains(x) && x != target {
                let k = choose|k: int| 0 <= k < more.len() && more[k] == x;
                assert(open[k] == x);
            }
            if open.contains(x) {
                let k = choose|k: int| 0 <= k < open.len() && open[k] == x;
                assert(more[k] == x);
            }
        }
        lemma_ascending_is_unique(twice, open);
    }
}

/// Why a toggle is refused.
#[derive(Debug, PartialEq, Eq, Structural)]
pub enum ToggleError {
    Missing,
    Private,
}

/// What a toggle leads to.
pub struct ToggleResult {
    pub root: String,
    pub open: Vec<String>,
    pub selected: String,
    pub next_url: String,
}

/// What a toggle leads to: the new open nodes, the selected node (the one toggled, where none
/// was selected), and the URL. Refused without a root or a target, and in private namespaces.
pub fn tree_toggle(f: &ToggleForm) -> (r: Result<ToggleResult, ToggleError>)
    ensures
        ({
            let root = tree_key(f.root@);
            let target = tree_key(f.target@);
            let open = toggled(open_set(text::views(f.open@)), target);
            let selected = match selected_key(text::opt_view(f.selected)) {
                Some(s) => s,
                None => target,
            };
            if root.len() == 0 || target.len() == 0 {
                r == Err::<ToggleResult, ToggleError>(ToggleError::Missing)
            } else if is_private(root) || is_private(target) {
                r == Err::<ToggleResult, ToggleError>(ToggleError::Private)
            } else {
                match r {
                    Ok(t) => {
                        &&& t.root@ == root
                        &&& text::views(t.open@) == open
                        &&& t.selected@ == selected
                        &&& t.next_url@ == tree_href(root, open, Some(selected))
                    },
                    Err(_) => false,
                }
            }
        }),
{
    let root: String = node_key(f.root.as_str());
    let target: String = node_key(f.target.as_str());
    if root.as_str().is_empty() || target.as_str().is_empty() {
        return Err(ToggleError::Missing);
    }
    if in_private_namespace(root.as_str()) || in_private_namespace(target.as_str()) {
        return Err(ToggleError::Private);
    }
    let open: Vec<String> = toggle(&canon_open_set(&f.open), target.as_str());
    let selected: String = match canon_selected(&f.selected) {
        Some(s) => s,
        None => target,
    };
    let next_url: String = href_for(root.as_str(), &open, Some(selected.as_str()));
    Ok(ToggleResult { root, open, selected, next_url })
}

/// A text inside a JavaScript template literal.
pub open spec fn template_escaped(s: Seq<char>) -> Seq<char> {
    text::replace(
        text::replace(text::replace(s, "\\"@, "\\\\"@), "`"@, "\\`"@),
        "${"@,
        "\\${"@,
    )
}

/// A text inside a JavaScript string in single quotes.
pub open spec fn quote_escaped(s: Seq<char>) -> Seq<char> {
    text::replace(
        text::replace(text::replace(s, "\\"@, "\\\\"@), "`"@, "\\`"@),
        "'"@,
        "\\'"@,
    )
}

fn escape_template(s: &str) -> (r: String)
    ensures
        r@ == template_escaped(s@),
{
    proof {
        reveal_strlit("\\");
        reveal_strlit("`");
        reveal_strlit("${");
    }
    let a: Vec<char> = text::replaced(&text::chars(s), "\\", "\\\\");
    let b: Vec<char> = text::replaced(&a, "`", "\\`");
    text::string(&text::replaced(&b, "${", "\\${"))
}

fn escape_quote(s: &str) -> (r: String)
    ensures
        r@ == quote_escaped(s@),
{
    proof {
        reveal_strlit("\\");
        reveal_strlit("`");
        reveal_strlit("'");
    }
    let a: Vec<char> = text::replaced(&text::chars(s), "\\", "\\\\");
    let b: Vec<char> = text::replaced(&a, "`", "\\`");
    text::string(&text::replaced(&b, "'", "\\'"))
}

/// The script that shows a toggled tree.
pub open spec fn toggle_script(tree: Seq<char>, detail: Seq<char>, url: Seq<char>) -> Seq<char> {
    "Idiomorph.morph(document.getElementById('tree-pane'), `"@ + template_escaped(tree)
        + "`);Idiomorph.morph(document.getElementById('detail-pane'), `"@ + template_escaped(detail)
        + "`);history.replaceState(null, '', '"@ + quote_escaped(url) + "');"@
}

/// The script that shows a toggled tree and its URL.
pub fn toggle_js(tree_html: &str, detail_html: &str, next_url: &str) -> (r: String)
    ensures
        r@ == toggle_script(tree_html@, detail_html@, next_url@),
{
    let t: String = escape_template(tree_html);
    let d: String = escape_template(detail_html);
    let u: String = escape_quote(next_url);
    let head: String = text::cat5(
        "Idiomorph.morph(document.getElementById('tree-pane'), `",
        t.as_str(),
        "`);Idiomorph.morph(document.getElementById('detail-pane'), `",
        d.as_str(),
        "`);history.replaceState(null, '', '",
    );
    text::cat3(head.as_str(), u.as_str(), "');")
}

/// The children of a node are the members of its ranking in order, those of the components before
/// those without votes, and none of them is private.
pub proof fn law_children_of_a_node(c: ContentState, parent: Seq<char>)
    ensures
        ({
            let r = state::rankings_of(c, paths::normal_key(parent));
            children_of(c, parent) == (ranked_items(r.components) + r.unranked).filter(
                |k: Seq<char>| !is_private(k),
            )
        }),
{
    let r = state::rankings_of(c, paths::normal_key(parent));
    lemma_public_only(ranked_items(r.components) + r.unranked);
}

proof fn lemma_public_only(v: Seq<Seq<char>>)
    ensures
        public_only(v) == v.filter(|k: Seq<char>| !is_private(k)),
    decreases v.len(),
{
    reveal(Seq::filter);
    if v.len() > 0 {
        lemma_public_only(v.drop_last());
    }
    assert(public_only(v) =~= v.filter(|k: Seq<char>| !is_private(k)));
}

/// The items of a ranking stand component by component, each in the order of its rank.
pub proof fn law_ranked_items(
    components: Seq<state::ComponentModel>,
    c: state::ComponentModel,
    i: int,
)
    ensures
        ranked_items(Seq::empty()).len() == 0,
        ranked_items(components.push(c)).len() == ranked_items(components).len() + c.ranked.len(),
        0 <= i < ranked_items(components).len() ==> ranked_items(components.push(c))[i]
            == ranked_items(components)[i],
        0 <= i < c.ranked.len() ==> ranked_items(components.push(c))[ranked_items(components).len()
            + i] == c.ranked[i].item,
{
    assert(components.push(c).drop_last() =~= components);
}

/// An item is private where the first segment of its path is a UUID.
pub proof fn law_private_items(first: Seq<char>, rest: Seq<char>)
    requires
        !first.contains('/'),
    ensures
        is_private("https://slug.social/~/"@ + first) <==> outside::is_uuid(first),
        is_private("https://slug.social/~/"@ + first + "/"@ + rest) <==> outside::is_uuid(first),
{
    reveal_strlit("https://slug.social/~/");
    reveal_strlit("/");
    let base = "https://slug.social/~/"@;
    let k = base + first;
    assert(k.subrange(0, 22) =~= base);
    assert(k.skip(22) =~= first);
    text::lemma_find(first, seq!['/'], 0);
    match text::find(first, seq!['/'], 0) {
        Some(i) => {
            assert(first.subrange(i, i + 1)[0] == '/');
            assert(first.contains('/'));
        },
        None => {},
    }
    let tail = first + "/"@ + rest;
    let q = base + first + "/"@ + rest;
    assert(q =~= base + tail);
    assert(q.subrange(0, 22) =~= base);
    assert(q.skip(22) =~= tail);
    text::lemma_find(tail, seq!['/'], 0);
    let at = first.len() as int;
    assert(tail.subrange(at, at + 1) =~= seq!['/']);
    assert(text::occurs_at(tail, seq!['/'], at));
    let i = text::find(tail, seq!['/'], 0).unwrap();
    if i < at {
        assert(tail.subrange(i, i + 1)[0] == '/');
        assert(first[i] == '/');
        assert(first.contains('/'));
    }
    assert(tail.take(at) =~= first);
}

/// A node stands in front of what is open below it: a closed node by itself, an open one with its
/// children one level deeper; and its row says whether it is open, selected, and has members.
pub proof fn law_rows_of_a_node(
    c: ContentState,
    path: Seq<char>,
    root: Seq<char>,
    open: Seq<Seq<char>>,
    selected: Option<Seq<char>>,
    depth: nat,
    fuel: nat,
)
    ensures
        node_rows(c, path, root, open, selected, depth, fuel).len() > 0,
        ({
            let r = node_rows(c, path, root, open, selected, depth, fuel)[0];
            &&& r.path == path
            &&& r.depth == depth
            &&& r.is_open <==> open.contains(path)
            &&& r.is_selected <==> selected is Some && selected.unwrap() == path
            &&& r.has_children <==> state::members_of(c, paths::normal_key(path)).len() > 0
            &&& r.href == tree_href(root, open, Some(path))
            &&& r.label == node_label(path)
        }),
        !open.contains(path) ==> node_rows(c, path, root, open, selected, depth, fuel).len() == 1,
        open.contains(path) && fuel > 0 ==> node_rows(c, path, root, open, selected, depth, fuel).skip(
            1,
        ) == rows_of(
            c,
            children_of(c, path),
            root,
            open,
            selected,
            depth + 1,
            (fuel - 1) as nat,
        ),
{
    let rest = rows_of(
        c,
        children_of(c, path),
        root,
        open,
        selected,
        depth + 1,
        (fuel - 1) as nat,
    );
    if open.contains(path) && fuel > 0 {
        assert(node_rows(c, path, root, open, selected, depth, fuel).skip(1) =~= rest);
    }
}

/// The rows of several nodes are those of each, one behind the other.
pub proof fn law_rows_of_nodes(
    c: ContentState,
    nodes: Seq<Seq<char>>,
    x: Seq<char>,
    root: Seq<char>,
    open: Seq<Seq<char>>,
    selected: Option<Seq<char>>,
    depth: nat,
    fuel: nat,
)
    ensures
        rows_of(c, Seq::empty(), root, open, selected, depth, fuel).len() == 0,
        rows_of(c, nodes.push(x), root, open, selected, depth, fuel) == rows_of(
            c,
            nodes,
            root,
            open,
            selected,
            depth,
            fuel,
        ) + node_rows(c, x, root, open, selected, depth, fuel),
{
    assert(nodes.push(x).drop_last() =~= nodes);
}

/// Toggling opens a closed node and closes an open one, and leaves all others as they are.
pub proof fn law_toggling(open: Seq<Seq<char>>, target: Seq<char>, x: Seq<char>)
    ensures
        open.contains(target) ==> !toggled(open, target).contains(target),
        !open.contains(target) ==> toggled(open, target).contains(target),
        x != target ==> (toggled(open, target).contains(x) <==> open.contains(x)),
{
    if open.contains(target) {
        lemma_without_holds(open, target, target);
        lemma_without_holds(open, target, x);
    } else {
        let all = open.push(target);
        sort::law_sorted_set(all);
        assert(all[open.len() as int] == target);
        if open.contains(x) {
            let k = choose|k: int| 0 <= k < open.len() && open[k] == x;
            assert(all[k] == x);
        }
        if all.contains(x) && x != target {
            let k = choose|k: int| 0 <= k < all.len() && all[k] == x;
            assert(open[k] == x);
        }
    }
}

proof fn lemma_without_holds(v: Seq<Seq<char>>, x: Seq<char>, y: Seq<char>)
    ensures
        without_text(v, x).contains(y) <==> v.contains(y) && y != x,
    decreases v.len(),
{
    if v.len() > 0 {
        lemma_without_holds(v.drop_last(), x, y);
        let front = without_text(v.drop_last(), x);
        let all = without_text(v, x);
        if all.contains(y) {
            let k = choose|k: int| 0 <= k < all.len() && all[k] == y;
            if k < front.len() {
                assert(front[k] == y);
                assert(front.contains(y));
                let j = choose|j: int| 0 <= j < v.drop_last().len() && v.drop_last()[j] == y;
                assert(v[j] == y);
            } else {
                assert(v[v.len() - 1] == y);
            }
        }
        if v.contains(y) && y != x {
            let j = choose|j: int| 0 <= j < v.len() && v[j] == y;
            if j < v.len() - 1 {
                assert(v.drop_last()[j] == y);
                let k = choose|k: int| 0 <= k < front.len() && front[k] == y;
                assert(all[k] == y);
            } else {
                assert(all[all.len() - 1] == y);
            }
        }
    }
}

/// The open nodes of a query are the written ones under their keys, each once and in order; the
/// root is spelled with a slash behind it.
pub proof fn law_open_nodes(v: Seq<Seq<char>>, x: Seq<char>, s: Seq<char>)
    ensures
        open_set(v).contains(x) <==> x.len() > 0 && exists|i: int|
            0 <= i < v.len() && tree_key(#[trigger] v[i]) == x,
        forall|i: int, j: int|
            0 <= i < j < open_set(v).len() ==> text::text_lt(
                #[trigger] open_set(v)[i],
                #[trigger] open_set(v)[j],
            ),
        paths::canonical_item(s) == "https://slug.social/~"@ ==> tree_key(s)
            == "https://slug.social/~/"@,
        paths::canonical_item(s) != "https://slug.social/~"@ ==> tree_key(s)
            == paths::canonical_item(s),
        tree_key(s).len() > 0 ==> selected_key(Some(s)) == Some(tree_key(s)),
        selected_key(None) is None,
{
    lemma_tree_keys(v, x);
    sort::law_sorted_set(tree_keys(v));
}

proof fn lemma_tree_keys(v: Seq<Seq<char>>, x: Seq<char>)
    ensures
        tree_keys(v).contains(x) <==> x.len() > 0 && exists|i: int|
            0 <= i < v.len() && tree_key(#[trigger] v[i]) == x,
    decreases v.len(),
{
    if v.len() > 0 {
        let rest = v.drop_last();
        lemma_tree_keys(rest, x);
        let front = tree_keys(rest);
        let all = tree_keys(v);
        let n = v.len() - 1;
        if all.contains(x) {
            let k = choose|k: int| 0 <= k < all.len() && all[k] == x;
            if k < front.len() {
                assert(front[k] == x);
                assert(front.contains(x));
                let i = choose|i: int| 0 <= i < rest.len() && tree_key(#[trigger] rest[i]) == x;
                assert(v[i] == rest[i]);
            } else {
                assert(tree_key(v[n]) == x);
            }
        }
        if x.len() > 0 && exists|i: int| 0 <= i < v.len() && tree_key(#[trigger] v[i]) == x {
            let i = choose|i: int| 0 <= i < v.len() && tree_key(#[trigger] v[i]) == x;
            if i < n {
                assert(rest[i] == v[i]);
                let k = choose|k: int| 0 <= k < front.len() && front[k] == x;
                assert(all[k] == x);
            } else {
                assert(all[all.len() - 1] == x);
            }
        }
    }
}

/// The root of a tree is named by the path behind `/tree/`, and without one it is that of the
/// ontology.
pub proof fn law_tree_roots(p: Seq<char>)
    requires
        paths::is_bare(p),
    ensures
        root_of_path(None) == "https://slug.social/~/"@,
        root_of_path(Some(Seq::empty())) == "https://slug.social/~/"@,
        root_of_path(Some(p)) == "https://slug.social/~/"@ + p,
        node_label("https://slug.social/~/"@ + p) == p,
{
    reveal_strlit("https://slug.social/~/");
    reveal_strlit("https://slug.social/~");
    paths::law_ontology_items(p);
    let r = "https://slug.social/~"@;
    assert(r.last() == '~');
    assert(paths::normal_key(r) == r);
    let none = Seq::<char>::empty();
    assert(text::trim_start(none) == none);
    assert(text::trim_end(none) == none);
    text::law_trim(none, p, none);
    assert(none + p + none =~= p);
    assert(text::trim_char_start(p, '/') == p);
    let k = "https://slug.social/~/"@ + p;
    assert(k.last() == p.last());
    assert(paths::normal_key(k) == k);
    assert(k.len() != r.len());
    text::law_strip("https://slug.social/~/"@, p);
}

/// The URL of a tree keeps its open nodes in their order and then the selected one.
#[verifier::rlimit(50)]
pub proof fn law_tree_urls(root: Seq<char>, a: Seq<char>, b: Seq<char>, s: Seq<char>)
    ensures
        tree_href(root, Seq::empty(), None) == tree_path(root),
        tree_href(root, Seq::empty(), Some(s)) == tree_path(root) + "?selected="@ + outside::percent(s),
        tree_href(root, seq![a, b], Some(s)) == tree_path(root) + "?open="@ + outside::percent(a)
            + "&open="@ + outside::percent(b) + "&selected="@ + outside::percent(s),
{
    reveal_strlit("?");
    reveal_strlit("&");
    reveal_strlit("selected=");
    reveal_strlit("?selected=");
    reveal_strlit("&selected=");
    reveal_strlit("open=");
    reveal_strlit("?open=");
    reveal_strlit("&open=");
    let none = Seq::<Seq<char>>::empty();
    let x = "selected="@ + outside::percent(s);
    let p = tree_params(none, Some(s));
    assert(p =~= seq![x]);
    assert(text::join(p, "&"@) == x);
    assert(tree_path(root) + "?"@ + x =~= tree_path(root) + "?selected="@ + outside::percent(s));
    let oa = "open="@ + outside::percent(a);
    let ob = "open="@ + outside::percent(b);
    let q = tree_params(seq![a, b], Some(s));
    assert(q =~= seq![oa, ob, x]);
    assert(q.drop_last() =~= seq![oa, ob]);
    assert(seq![oa, ob].drop_last() =~= seq![oa]);
    text::law_join(seq![oa], ob, "&"@);
    text::law_join(seq![oa, ob], x, "&"@);
    text::law_join(seq![oa], oa, "&"@);
    assert(seq![oa].push(ob) =~= seq![oa, ob]);
    assert(seq![oa, ob].push(x) =~= q);
    assert(text::join(q, "&"@) == oa + "&"@ + ob + "&"@ + x);
    assert(tree_path(root) + "?"@ + (oa + "&"@ + ob + "&"@ + x) =~= tree_path(root) + "?open="@
        + outside::percent(a) + "&open="@ + outside::percent(b) + "&selected="@ + outside::percent(
        s,
    ));
}

/// The path of a tree is that of its root under `/tree`.
pub proof fn law_tree_paths(p: Seq<char>)
    requires
        paths::is_bare(p),
        !text::has_prefix(p, "https://slug.social/~/"@),
    ensures
        tree_path("https://slug.social/~/"@ + p) == "/tree/"@ + p,
        tree_path("https://slug.social/~/"@) == "/tree"@,
{
    reveal_strlit("https://slug.social/~/");
    reveal_strlit("/tree/");
    reveal_strlit("/tree");
    let base = "https://slug.social/~/"@;
    let k = base + p;
    assert(k.subrange(0, 22) =~= base);
    assert(k.skip(22) =~= p);
    assert(without_copies(k, base) == without_copies(p, base));
    let t = "/tree/"@ + p;
    assert(t.last() == p.last());
    assert(text::trim_char_end(t, '/') == t);
    assert(base.subrange(0, 22) =~= base);
    assert(base.skip(22) =~= Seq::empty());
    assert(without_copies(base, base) == without_copies(Seq::empty(), base));
    assert(without_copies(Seq::empty(), base) =~= Seq::<char>::empty());
    let e = "/tree/"@ + Seq::<char>::empty();
    assert(e =~= "/tree/"@);
    assert(e.last() == '/');
    assert(e.drop_last() =~= "/tree"@);
    assert(e.drop_last().last() == 'e');
    assert(text::trim_char_end(e.drop_last(), '/') == e.drop_last());
}

/// The element of a node is known by the sixteen hexadecimal digits of its hash.
pub proof fn law_element_ids(path: Seq<char>)
    ensures
        element_id(path).len() == 21,
        element_id(path).take(5) == "node-"@,
{
    reveal_strlit("node-");
    lemma_hex_digits(fnv(encode_utf8(path)) as nat, 16);
    assert(element_id(path).take(5) =~= "node-"@);
}

proof fn lemma_hex_digits(h: nat, n: nat)
    ensures
        hex_digits(h, n).len() == n,
    decreases n,
{
    if n > 0 {
        lemma_hex_digits(h / 16, (n - 1) as nat);
    }
}

} // verus!
