//! Item identities and the paths that show them.
//!
//! An item is stored under a URL. Items of the ontology live under
//! `https://slug.social/~`, every other `http(s)` URL is an external item.

use vstd::prelude::*;

use crate::text;

verus! {

// ---------------------------------------------------------------------------
// Model
// ---------------------------------------------------------------------------

/// The storage key of the ontology root.
pub open spec fn root_key() -> Seq<char> {
    "https://slug.social/~"@
}

/// The storage key of the ontology item with the given path under the root.
pub open spec fn tilde_key(tail: Seq<char>) -> Seq<char> {
    if tail.len() == 0 {
        root_key()
    } else {
        "https://slug.social/~/"@ + tail
    }
}

/// The path under the ontology root of a storage key, empty at the root itself.
pub open spec fn tilde_tail(key: Seq<char>) -> Option<Seq<char>> {
    if key == root_key() {
        Some(Seq::empty())
    } else {
        text::strip_prefix(key, "https://slug.social/~/"@)
    }
}

/// Whether a text is an `http` or `https` URL.
pub open spec fn is_web(s: Seq<char>) -> bool {
    text::has_prefix(s, "http://"@) || text::has_prefix(s, "https://"@)
}

/// A path without slashes at both ends.
pub open spec fn trim_slashes(s: Seq<char>) -> Seq<char> {
    text::trim_char_end(text::trim_char_start(s, '/'), '/')
}

/// The storage key that a written item stands for: `~name` and `~/path` are in the ontology,
/// `-/host/path` and URLs are external, any other path is on the site itself.
pub open spec fn item_key(input: Seq<char>) -> Option<Seq<char>> {
    let t = text::trim(input);
    if t.len() == 0 {
        None
    } else if t[0] == '~' {
        Some(tilde_key(trim_slashes(t.skip(1))))
    } else if text::has_prefix(t, "-/"@) {
        let rest = t.skip(2);
        if rest.len() == 0 {
            None
        } else if is_web(rest) {
            Some(rest)
        } else {
            Some("https://"@ + text::trim_char_end(rest, '/'))
        }
    } else if is_web(t) {
        Some(t)
    } else {
        Some("https://slug.social/"@ + text::trim_char_start(t, '/'))
    }
}

/// The last place of a character.
pub open spec fn rfind(s: Seq<char>, c: char) -> Option<int>
    decreases s.len(),
{
    if s.len() == 0 {
        None
    } else if s.last() == c {
        Some(s.len() - 1)
    } else {
        rfind(s.drop_last(), c)
    }
}

/// What stands behind the last slash.
pub open spec fn last_piece(s: Seq<char>) -> Seq<char> {
    match rfind(s, '/') {
        Some(i) => s.skip(i + 1),
        None => s,
    }
}

/// The key of the ontology item named by the last segment; other keys are kept.
pub open spec fn leaf_key(key: Seq<char>) -> Seq<char> {
    match tilde_tail(key) {
        Some(tail) => tilde_key(last_piece(tail)),
        None => key,
    }
}

/// A key without trailing slashes.
pub open spec fn normal_key(key: Seq<char>) -> Seq<char> {
    text::trim_char_end(key, '/')
}

/// How many characters the scheme of a URL takes.
pub open spec fn scheme_len(key: Seq<char>) -> int {
    if text::has_prefix(key, "https://"@) {
        8
    } else {
        7
    }
}

/// The key one path segment up; none for the ontology root and for a bare host.
pub open spec fn parent_key(key: Seq<char>) -> Option<Seq<char>> {
    match tilde_tail(key) {
        Some(tail) => if tail.len() == 0 {
            None
        } else {
            match rfind(tail, '/') {
                Some(i) => Some(tilde_key(tail.take(i))),
                None => Some(root_key()),
            }
        },
        None => if is_web(key) {
            match rfind(key.skip(scheme_len(key)), '/') {
                Some(i) => Some(key.take(scheme_len(key) + i)),
                None => None,
            }
        } else {
            None
        },
    }
}

/// How a key is shown: `~/path` in the ontology, `-/url` outside.
pub open spec fn display(key: Seq<char>) -> Seq<char> {
    match tilde_tail(key) {
        Some(tail) => "~/"@ + tail,
        None => if is_web(key) {
            "-/"@ + key
        } else {
            key
        },
    }
}

/// The storage key for a written item, or the trimmed text where it names none.
pub open spec fn canonical_item(input: Seq<char>) -> Seq<char> {
    match item_key(input) {
        Some(k) => normal_key(k),
        None => text::trim(input),
    }
}

/// `https:/x` and `http:/x` with the slash that a path router took away.
pub open spec fn repair_scheme(p: Seq<char>) -> Seq<char> {
    if is_web(p) {
        p
    } else if text::has_prefix(p, "https:/"@) {
        "https://"@ + p.skip(7)
    } else if text::has_prefix(p, "http:/"@) {
        "http://"@ + p.skip(6)
    } else {
        p
    }
}

// ---------------------------------------------------------------------------
// Items
// ---------------------------------------------------------------------------

/// An item, identified by its storage URL.
#[derive(Clone, Debug, PartialEq, Eq, Hash)]
pub struct ItemId {
    storage: String,
}

impl View for ItemId {
    type V = Seq<char>;

    closed spec fn view(&self) -> Seq<char> {
        self.storage@
    }
}

/// The storage keys of a list of items.
pub open spec fn keys(v: Seq<ItemId>) -> Seq<Seq<char>> {
    Seq::new(v.len(), |i: int| v[i]@)
}

/// The last place of a character in a vector.
pub fn rfind_char(s: &Vec<char>, c: char) -> (r: Option<usize>)
    ensures
        match r {
            Some(i) => rfind(s@, c) == Some(i as int) && i < s.len() && s@[i as int] == c,
            None => rfind(s@, c) is None,
        },
{
    let mut n: usize = s.len();
    assert(s@.take(n as int) =~= s@);
    while n > 0
        invariant
            n <= s.len(),
            rfind(s@, c) == rfind(s@.take(n as int), c),
        decreases n,
    {
        assert(s@.take(n as int).drop_last() =~= s@.take(n - 1));
        if s[n - 1] == c {
            return Some(n - 1);
        }
        n = n - 1;
    }
    None
}

/// Tests for an `http` or `https` URL.
pub fn web(s: &Vec<char>) -> (r: bool)
    ensures
        r == is_web(s@),
{
    text::starts_with(s, "http://") || text::starts_with(s, "https://")
}

/// A prefix found by [`rfind`] lies inside the text.
pub proof fn lemma_rfind(s: Seq<char>, c: char)
    ensures
        match rfind(s, c) {
            Some(i) => 0 <= i < s.len() && s[i] == c && forall|j: int| i < j < s.len() ==> s[j] != c,
            None => forall|j: int| 0 <= j < s.len() ==> s[j] != c,
        },
    decreases s.len(),
{
    if s.len() > 0 && s.last() != c {
        lemma_rfind(s.drop_last(), c);
        assert forall|j: int| 0 <= j < s.len() - 1 implies s[j] == s.drop_last()[j] by {}
    }
}

/// The storage key of an ontology path.
fn tilde_storage(tail: &Vec<char>) -> (r: String)
    ensures
        r@ == tilde_key(tail@),
{
    if tail.len() == 0 {
        "https://slug.social/~".to_owned()
    } else {
        let t: String = text::string(tail);
        text::cat("https://slug.social/~/", t.as_str())
    }
}

impl ItemId {
    /// The item that a written path or URL names.
    pub fn parse(input: &str) -> (r: Option<ItemId>)
        ensures
            match r {
                Some(i) => item_key(input@) == Some(i@),
                None => item_key(input@) is None,
            },
    {
        let t: Vec<char> = text::trimmed(&text::chars(input));
        if t.len() == 0 {
            return None;
        }
        if t[0] == '~' {
            let rest: Vec<char> = text::cut(&t, 1, t.len());
            assert(rest@ =~= t@.skip(1));
            let tail: Vec<char> = text::without_trailing(&text::without_leading(&rest, '/'), '/');
            return Some(ItemId { storage: tilde_storage(&tail) });
        }
        proof {
            reveal_strlit("-/");
        }
        match text::without_prefix(&t, "-/") {
            Some(rest) => {
                assert(rest@ == t@.skip(2));
                if rest.len() == 0 {
                    None
                } else if web(&rest) {
                    Some(ItemId { storage: text::string(&rest) })
                } else {
                    let host: String = text::string(&text::without_trailing(&rest, '/'));
                    Some(ItemId { storage: text::cat("https://", host.as_str()) })
                }
            },
            None => if web(&t) {
                Some(ItemId { storage: text::string(&t) })
            } else {
                let path: String = text::string(&text::without_leading(&t, '/'));
                Some(ItemId { storage: text::cat("https://slug.social/", path.as_str()) })
            },
        }
    }

    /// An item under a key that is taken as it is.
    pub fn opaque(storage: String) -> (r: ItemId)
        ensures
            r@ == storage@,
    {
        ItemId { storage }
    }

    /// The root of the ontology.
    pub fn ontology_root() -> (r: ItemId)
        ensures
            r@ == root_key(),
    {
        ItemId { storage: "https://slug.social/~".to_owned() }
    }

    /// The item at a path under the ontology root.
    pub fn tilde(path: &str) -> (r: ItemId)
        ensures
            r@ == tilde_key(trim_slashes(path@)),
    {
        let tail: Vec<char> = text::without_trailing(
            &text::without_leading(&text::chars(path), '/'),
            '/',
        );
        ItemId { storage: tilde_storage(&tail) }
    }

    /// The storage key.
    pub fn as_str(&self) -> (r: &str)
        ensures
            r@ == self@,
    {
        self.storage.as_str()
    }

    /// The storage key as a string of its own.
    pub fn to_storage_string(&self) -> (r: String)
        ensures
            r@ == self@,
    {
        self.storage.clone()
    }

    /// A copy of the item.
    pub fn copy(&self) -> (r: ItemId)
        ensures
            r@ == self@,
    {
        ItemId { storage: self.storage.clone() }
    }

    /// Whether two items have the same key.
    pub fn same(&self, other: &ItemId) -> (r: bool)
        ensures
            r == (self@ == other@),
    {
        self.storage == other.storage
    }

    /// The item under its key without trailing slashes.
    pub fn normalized_storage(&self) -> (r: ItemId)
        ensures
            r@ == normal_key(self@),
    {
        let s: Vec<char> = text::chars(self.storage.as_str());
        ItemId { storage: text::string(&text::without_trailing(&s, '/')) }
    }

    /// The path under the ontology root, empty at the root; none for other items.
    pub fn tilde_tail(&self) -> (r: Option<String>)
        ensures
            text::opt_view(r) == tilde_tail(self@),
    {
        if text::same(self.storage.as_str(), "https://slug.social/~") {
            return Some(String::new());
        }
        let s: Vec<char> = text::chars(self.storage.as_str());
        match text::without_prefix(&s, "https://slug.social/~/") {
            Some(v) => Some(text::string(&v)),
            None => None,
        }
    }

    /// The path segments of an ontology item under the root.
    pub fn tilde_path(&self) -> (r: Vec<String>)
        ensures
            text::views(r@) == tilde_segments(self@),
    {
        match self.tilde_tail() {
            Some(tail) => text::without_empty(
                &text::split_chars(&text::chars(tail.as_str()), '/'),
            ),
            None => {
                let r: Vec<String> = Vec::new();
                assert(text::views(r@) =~= Seq::empty());
                r
            },
        }
    }

    /// The ontology item named by the last segment alone; other items are kept.
    pub fn ontology_leaf(&self) -> (r: ItemId)
        ensures
            r@ == leaf_key(self@),
    {
        match self.tilde_tail() {
            Some(tail) => {
                let t: Vec<char> = text::chars(tail.as_str());
                ItemId { storage: tilde_storage(&behind_last_slash(&t)) }
            },
            None => self.copy(),
        }
    }

    /// What stands behind the last slash of the key.
    pub fn last_segment(&self) -> (r: String)
        ensures
            r@ == last_piece(self@),
    {
        text::string(&behind_last_slash(&text::chars(self.storage.as_str())))
    }

    /// The item one path segment up.
    pub fn parent(&self) -> (r: Option<ItemId>)
        ensures
            match r {
                Some(p) => parent_key(self@) == Some(p@),
                None => parent_key(self@) is None,
            },
    {
        match self.tilde_tail() {
            Some(tail) => {
                let t: Vec<char> = text::chars(tail.as_str());
                if t.len() == 0 {
                    return None;
                }
                match rfind_char(&t, '/') {
                    Some(i) => {
                        let up: Vec<char> = text::cut(&t, 0, i);
                        assert(up@ =~= t@.take(i as int));
                        Some(ItemId { storage: tilde_storage(&up) })
                    },
                    None => Some(ItemId::ontology_root()),
                }
            },
            None => {
                let s: Vec<char> = text::chars(self.storage.as_str());
                if !web(&s) {
                    return None;
                }
                proof {
                    reveal_strlit("https://");
                    reveal_strlit("http://");
                }
                let n: usize = if text::starts_with(&s, "https://") {
                    8
                } else {
                    7
                };
                let rest: Vec<char> = text::cut(&s, n, s.len());
                assert(rest@ =~= s@.skip(n as int));
                match rfind_char(&rest, '/') {
                    Some(i) => {
                        let up: Vec<char> = text::cut(&s, 0, n + i);
                        assert(up@ =~= s@.take(n + i));
                        Some(ItemId { storage: text::string(&up) })
                    },
                    None => None,
                }
            },
        }
    }

    /// How the item is shown.
    pub fn display_path(&self) -> (r: String)
        ensures
            r@ == display(self@),
    {
        match self.tilde_tail() {
            Some(tail) => text::cat("~/", tail.as_str()),
            None => if web(&text::chars(self.storage.as_str())) {
                text::cat("-/", self.storage.as_str())
            } else {
                self.storage.clone()
            },
        }
    }

    /// Whether the item is the ontology root.
    pub fn is_ontology_root(&self) -> (r: bool)
        ensures
            r == (tilde_tail(self@) == Some(Seq::<char>::empty())),
    {
        match self.tilde_tail() {
            Some(t) => {
                if t.as_str().is_empty() {
                    assert(t@ =~= Seq::<char>::empty());
                    true
                } else {
                    false
                }
            },
            None => false,
        }
    }
}

fn behind_last_slash(s: &Vec<char>) -> (r: Vec<char>)
    ensures
        r@ == last_piece(s@),
{
    match rfind_char(s, '/') {
        Some(i) => {
            let r: Vec<char> = text::cut(s, i + 1, s.len());
            assert(r@ =~= s@.skip(i + 1));
            r
        },
        None => text::cut(s, 0, s.len()),
    }
}

/// The path segments of an ontology key under the root.
pub open spec fn tilde_segments(key: Seq<char>) -> Seq<Seq<char>> {
    match tilde_tail(key) {
        Some(tail) => text::nonempty(text::split(tail, '/')),
        None => Seq::empty(),
    }
}

/// Copies every item of a list.
pub fn copy_items(v: &Vec<ItemId>) -> (r: Vec<ItemId>)
    ensures
        keys(r@) == keys(v@),
{
    let mut r: Vec<ItemId> = Vec::new();
    let mut i: usize = 0;
    while i < v.len()
        invariant
            i <= v.len(),
            r.len() == i,
            forall|j: int| 0 <= j < i ==> (#[trigger] r@[j])@ == v@[j]@,
        decreases v.len() - i,
    {
        r.push(v[i].copy());
        i = i + 1;
    }
    assert(keys(r@) =~= keys(v@));
    r
}

/// Whether a list holds an item.
pub fn holds_item(v: &Vec<ItemId>, x: &ItemId) -> (r: bool)
    ensures
        r == keys(v@).contains(x@),
{
    let mut i: usize = 0;
    while i < v.len()
        invariant
            i <= v.len(),
            forall|j: int| 0 <= j < i ==> keys(v@)[j] != x@,
        decreases v.len() - i,
    {
        if v[i].same(x) {
            assert(keys(v@)[i as int] == x@);
            return true;
        }
        i = i + 1;
    }
    false
}

/// The storage key for a written item, or the trimmed text where it names none.
pub fn canonicalize_item(input: &str) -> (r: String)
    ensures
        r@ == canonical_item(input@),
{
    match ItemId::parse(input) {
        Some(i) => i.normalized_storage().to_storage_string(),
        None => text::trim_str(input),
    }
}

/// Puts back the slash that a path router took from `https://`.
pub fn repair_collapsed_http_scheme(p: &str) -> (r: String)
    ensures
        r@ == repair_scheme(p@),
{
    let s: Vec<char> = text::chars(p);
    if web(&s) {
        return p.to_owned();
    }
    proof {
        reveal_strlit("https:/");
        reveal_strlit("http:/");
    }
    match text::without_prefix(&s, "https:/") {
        Some(rest) => {
            let t: String = text::string(&rest);
            text::cat("https://", t.as_str())
        },
        None => match text::without_prefix(&s, "http:/") {
            Some(rest) => {
                let t: String = text::string(&rest);
                text::cat("http://", t.as_str())
            },
            None => p.to_owned(),
        },
    }
}

// ---------------------------------------------------------------------------
// Ontology paths
// ---------------------------------------------------------------------------

/// An ontology path for rendering and routing.
pub struct OntologyPath {
    item: ItemId,
    segments: Vec<String>,
}

impl OntologyPath {
    /// The storage key of the path's item.
    pub closed spec fn key(&self) -> Seq<char> {
        self.item@
    }

    /// The segments under `~`.
    pub closed spec fn parts(&self) -> Seq<Seq<char>> {
        text::views(self.segments@)
    }

    /// The segments are those of the item.
    pub open spec fn wf(&self) -> bool {
        self.parts() == tilde_segments(self.key())
    }

    /// The path behind `/~/` in a URL, always read as an ontology path.
    pub fn from_input(path: &str) -> (r: OntologyPath)
        ensures
            r.wf(),
            r.key() == tilde_key(trim_slashes(path@)),
    {
        OntologyPath::from_item(ItemId::tilde(path))
    }

    /// The path of an item.
    pub fn from_item(item: ItemId) -> (r: OntologyPath)
        ensures
            r.wf(),
            r.key() == item@,
    {
        let segments: Vec<String> = item.tilde_path();
        OntologyPath { item, segments }
    }

    /// The root path.
    pub fn root() -> (r: OntologyPath)
        ensures
            r.wf(),
            r.key() == root_key(),
            r.parts().len() == 0,
    {
        let r = OntologyPath::from_item(ItemId::ontology_root());
        proof {
            lemma_root_has_no_segments();
        }
        r
    }

    /// Whether there are no segments.
    pub fn is_root(&self) -> (r: bool)
        ensures
            r == (self.parts().len() == 0),
    {
        self.segments.len() == 0
    }

    /// At the root the first crumb leads to the forum, deeper it stays in the garden.
    pub fn slug_root_href(&self) -> (r: &'static str)
        ensures
            r@ == if self.parts().len() == 0 {
                "/"@
            } else {
                "/~"@
            },
    {
        if self.is_root() {
            "/"
        } else {
            "/~"
        }
    }

    /// The segments under `~`.
    pub fn segments(&self) -> (r: &Vec<String>)
        ensures
            text::views(r@) == self.parts(),
    {
        &self.segments
    }

    /// The storage key of the path's item.
    pub fn as_str(&self) -> (r: &str)
        ensures
            r@ == self.key(),
    {
        self.item.as_str()
    }
}

/// The root has no segments.
pub proof fn lemma_root_has_no_segments()
    ensures
        tilde_segments(root_key()).len() == 0,
{
    let pieces = text::split(Seq::<char>::empty(), '/');
    assert(pieces.len() == 1 && pieces.last().len() == 0);
    assert(pieces.drop_last().len() == 0);
    assert(text::nonempty(pieces.drop_last()).len() == 0);
}

// ---------------------------------------------------------------------------
// External paths
// ---------------------------------------------------------------------------

/// Whether a key lies in the ontology of the site.
pub open spec fn in_ontology(key: Seq<char>) -> bool {
    key == root_key() || text::has_prefix(key, "https://slug.social/~/"@)
}

/// The external key above `key`, if there is one.
pub open spec fn external_parent(key: Seq<char>) -> Option<Seq<char>> {
    match parent_key(key) {
        Some(p) => if !in_ontology(p) && is_web(p) && p.len() < key.len() {
            Some(p)
        } else {
            None
        },
        None => None,
    }
}

/// The keys from the outermost external ancestor to `key` itself.
pub open spec fn external_ancestors(key: Seq<char>) -> Seq<Seq<char>>
    decreases key.len(),
{
    match external_parent(key) {
        Some(p) => if p.len() < key.len() {
            external_ancestors(p).push(key)
        } else {
            seq![key]
        },
        None => seq![key],
    }
}

/// The crumbs of an external item; none for the index of external items.
pub open spec fn external_chain(key: Seq<char>) -> Seq<Seq<char>> {
    if key == "https://."@ {
        Seq::empty()
    } else {
        external_ancestors(key)
    }
}

/// The key that the path behind `/-/` stands for.
pub open spec fn external_key(path: Seq<char>) -> Seq<char> {
    let p = repair_scheme(text::trim_char_start(path, '/'));
    let raw = if is_web(p) {
        p
    } else if p.len() == 0 {
        "-/."@
    } else {
        "-/"@ + text::trim_char_start(p, '/')
    };
    match item_key(raw) {
        Some(k) => k,
        None => "https://."@,
    }
}

/// Where a request for an external path in an old spelling is sent: the shown form of the item
/// behind a leading slash. None where the path is empty or already spelled as a full URL.
pub open spec fn legacy_target(path: Seq<char>) -> Option<Seq<char>> {
    let p = text::trim_char_start(path, '/');
    let q = repair_scheme(p);
    if p.len() == 0 || (is_web(q) && q == p) {
        None
    } else {
        match item_key(if is_web(q) {
            q
        } else {
            "-/"@ + q
        }) {
            Some(k) => if is_web(q) || is_web(k) {
                Some("/"@ + text::trim_char_start(display(k), '/'))
            } else {
                None
            },
            None => None,
        }
    }
}

/// An external item with the crumbs that lead to it.
pub struct ExternalOntologyPath {
    item: ItemId,
    chain: Vec<ItemId>,
}

/// The keys above an external item are shorter than its own.
pub proof fn lemma_parent_is_shorter(key: Seq<char>)
    ensures
        match parent_key(key) {
            Some(p) => in_ontology(p) || p.len() < key.len(),
            None => true,
        },
{
    reveal_strlit("https://");
    reveal_strlit("http://");
    reveal_strlit("https://slug.social/~/");
    match tilde_tail(key) {
        Some(tail) => {
            text::lemma_find(key, "https://slug.social/~/"@, 0);
            lemma_rfind(tail, '/');
            if tail.len() > 0 {
                match rfind(tail, '/') {
                    Some(i) => {
                        if i > 0 {
                            assert(tilde_key(tail.take(i)).subrange(0, 22)
                                =~= "https://slug.social/~/"@);
                        }
                    },
                    None => {},
                }
            }
        },
        None => {
            if is_web(key) {
                lemma_rfind(key.skip(scheme_len(key)), '/');
            }
        },
    }
}

/// The items from the outermost external ancestor to an item.
pub fn external_ancestor_chain(item: &ItemId) -> (r: Vec<ItemId>)
    ensures
        keys(r@) == external_chain(item@),
{
    if text::same(item.as_str(), "https://.") {
        let r: Vec<ItemId> = Vec::new();
        assert(keys(r@) =~= Seq::empty());
        return r;
    }
    ancestors_of(item)
}

fn ancestors_of(item: &ItemId) -> (r: Vec<ItemId>)
    ensures
        keys(r@) == external_ancestors(item@),
    decreases item@.len(),
{
    proof {
        lemma_parent_is_shorter(item@);
    }
    let up: Option<ItemId> = match item.parent() {
        Some(p) => {
            let s: Vec<char> = text::chars(p.as_str());
            if text::same(p.as_str(), "https://slug.social/~") || text::starts_with(
                &s,
                "https://slug.social/~/",
            ) || !web(&s) {
                None
            } else {
                Some(p)
            }
        },
        None => None,
    };
    match up {
        Some(p) => {
            let mut r: Vec<ItemId> = ancestors_of(&p);
            let ghost before = r@;
            r.push(item.copy());
            assert(keys(r@) =~= keys(before).push(item@));
            r
        },
        None => {
            let mut r: Vec<ItemId> = Vec::new();
            r.push(item.copy());
            assert(keys(r@) =~= seq![item@]);
            r
        },
    }
}

impl ExternalOntologyPath {
    /// The storage key of the path's item.
    pub closed spec fn key(&self) -> Seq<char> {
        self.item@
    }

    /// The keys of the crumbs.
    pub closed spec fn crumbs(&self) -> Seq<Seq<char>> {
        keys(self.chain@)
    }

    /// The crumbs are those of the item.
    pub open spec fn wf(&self) -> bool {
        self.crumbs() == external_chain(self.key())
    }

    /// The path behind `/-/` in a URL.
    pub fn from_input(path: &str) -> (r: ExternalOntologyPath)
        ensures
            r.wf(),
            r.key() == external_key(path@),
    {
        let p0: String = text::string(&text::without_leading(&text::chars(path), '/'));
        let p: String = repair_collapsed_http_scheme(p0.as_str());
        let cs: Vec<char> = text::chars(p.as_str());
        let raw: String = if web(&cs) {
            p
        } else if cs.len() == 0 {
            "-/.".to_owned()
        } else {
            let rest: String = text::string(&text::without_leading(&cs, '/'));
            text::cat("-/", rest.as_str())
        };
        match ItemId::parse(raw.as_str()) {
            Some(i) => ExternalOntologyPath::from_item(i),
            None => ExternalOntologyPath::from_item(ItemId::opaque("https://.".to_owned())),
        }
    }

    /// Where a request in an old spelling is sent.
    pub fn legacy_redirect_target(request_path: &str) -> (r: Option<String>)
        ensures
            text::opt_view(r) == legacy_target(request_path@),
    {
        let p: String = text::string(&text::without_leading(&text::chars(request_path), '/'));
        if p.as_str().is_empty() {
            return None;
        }
        let q: String = repair_collapsed_http_scheme(p.as_str());
        let full: bool = web(&text::chars(q.as_str()));
        if full && text::same(q.as_str(), p.as_str()) {
            return None;
        }
        let raw: String = if full {
            q
        } else {
            text::cat("-/", q.as_str())
        };
        match ItemId::parse(raw.as_str()) {
            Some(item) => {
                if !full && !web(&text::chars(item.as_str())) {
                    return None;
                }
                let shown: String = item.display_path();
                let rest: String = text::string(
                    &text::without_leading(&text::chars(shown.as_str()), '/'),
                );
                Some(text::cat("/", rest.as_str()))
            },
            None => None,
        }
    }

    /// The path of an item.
    pub fn from_item(item: ItemId) -> (r: ExternalOntologyPath)
        ensures
            r.wf(),
            r.key() == item@,
    {
        let chain: Vec<ItemId> = external_ancestor_chain(&item);
        ExternalOntologyPath { item, chain }
    }

    /// Whether this is the index of external items.
    pub fn is_root(&self) -> (r: bool)
        ensures
            r == (self.crumbs().len() == 0),
    {
        self.chain.len() == 0
    }

    /// The items from the host to the path's item.
    pub fn breadcrumb_chain(&self) -> (r: &Vec<ItemId>)
        ensures
            keys(r@) == self.crumbs(),
    {
        &self.chain
    }

    /// The storage key of the path's item.
    pub fn as_str(&self) -> (r: &str)
        ensures
            r@ == self.key(),
    {
        self.item.as_str()
    }
}

// ---------------------------------------------------------------------------
// Laws
// ---------------------------------------------------------------------------

/// The crumbs of an external item end with the item, and each crumb is the parent of the next.
pub proof fn law_external_crumbs_climb(key: Seq<char>)
    ensures
        external_ancestors(key).len() > 0,
        external_ancestors(key).last() == key,
        forall|i: int|
            0 <= i < external_ancestors(key).len() - 1 ==> parent_key(
                #[trigger] external_ancestors(key)[i + 1],
            ) == Some(external_ancestors(key)[i]),
    decreases key.len(),
{
    match external_parent(key) {
        Some(p) => {
            law_external_crumbs_climb(p);
            let up = external_ancestors(p);
            let all = external_ancestors(key);
            assert(all == up.push(key));
            assert forall|i: int| 0 <= i < all.len() - 1 implies parent_key(
                #[trigger] all[i + 1],
            ) == Some(all[i]) by {
                if i + 1 < up.len() {
                    assert(all[i + 1] == up[i + 1] && all[i] == up[i]);
                } else {
                    assert(all[i] == up.last());
                }
            }
        },
        None => {},
    }
}

/// A path that is already spelled as a full URL is never redirected.
pub proof fn law_full_urls_stay(path: Seq<char>)
    requires
        is_web(text::trim_char_start(path, '/')),
    ensures
        legacy_target(path) is None,
{
}

/// What a path that needs no redirect shows is the URL itself.
pub proof fn law_full_url_is_its_own_key(url: Seq<char>)
    requires
        is_web(url),
        text::trim(url) == url,
    ensures
        external_key(url) == url,
{
    reveal_strlit("http://");
    reveal_strlit("https://");
    reveal_strlit("-/");
    assert(url.subrange(0, 7)[0] == url[0] || url.subrange(0, 8)[0] == url[0]);
    if text::has_prefix(url, "http://"@) {
        assert(url.subrange(0, 7)[0] == 'h');
    } else {
        assert(url.subrange(0, 8)[0] == 'h');
    }
    assert(url[0] == 'h');
    if text::has_prefix(url, "-/"@) {
        assert(url.subrange(0, 2)[0] == '-');
    }
}

/// Taking the leaf of an ontology item twice is taking it once.
pub proof fn law_leaf_is_stable(key: Seq<char>)
    ensures
        leaf_key(leaf_key(key)) == leaf_key(key),
{
    match tilde_tail(key) {
        Some(tail) => {
            let leaf = last_piece(tail);
            lemma_last_piece_has_no_slash(tail);
            lemma_tail_of_tilde_key(leaf);
            lemma_rfind(leaf, '/');
            assert(last_piece(leaf) == leaf);
        },
        None => {},
    }
}

/// What follows the last slash holds no slash.
pub proof fn lemma_last_piece_has_no_slash(s: Seq<char>)
    ensures
        forall|j: int| 0 <= j < last_piece(s).len() ==> last_piece(s)[j] != '/',
{
    lemma_rfind(s, '/');
}

/// The tail of an ontology key is the path it was made of.
pub proof fn lemma_tail_of_tilde_key(tail: Seq<char>)
    ensures
        tilde_tail(tilde_key(tail)) == Some(tail),
{
    reveal_strlit("https://slug.social/~/");
    reveal_strlit("https://slug.social/~");
    if tail.len() == 0 {
        assert(tail =~= Seq::empty());
    } else {
        let k = tilde_key(tail);
        assert(k.len() > root_key().len());
        assert(k.subrange(0, 22) =~= "https://slug.social/~/"@);
        assert(k.skip(22) =~= tail);
    }
}

// ---------------------------------------------------------------------------
// How items are written
// ---------------------------------------------------------------------------

/// Whether a text has neither white space nor a slash at its ends.
pub open spec fn is_bare(t: Seq<char>) -> bool {
    t.len() > 0 && !text::is_white(t[0]) && !text::is_white(t.last()) && t[0] != '/' && t.last()
        != '/'
}

proof fn lemma_trim_bare(s: Seq<char>)
    requires
        s.len() > 0,
        !text::is_white(s[0]),
        !text::is_white(s.last()),
    ensures
        text::trim(s) == s,
{
    let none = Seq::<char>::empty();
    text::law_trim(none, s, none);
    assert(none + s + none =~= s);
}

/// `~name`, `~/path` and `~/path/` name items of the ontology, and the tilde alone its root.
#[verifier::rlimit(50)]
pub proof fn law_ontology_items(t: Seq<char>)
    requires
        is_bare(t),
    ensures
        item_key("~"@ + t) == Some("https://slug.social/~/"@ + t),
        item_key("~/"@ + t) == Some("https://slug.social/~/"@ + t),
        item_key("~/"@ + t + "/"@) == Some("https://slug.social/~/"@ + t),
        item_key("~"@) == Some("https://slug.social/~"@),
        item_key("~/"@) == Some("https://slug.social/~"@),
        tilde_tail("https://slug.social/~/"@ + t) == Some(t),
        display("https://slug.social/~/"@ + t) == "~/"@ + t,
        item_key(display("https://slug.social/~/"@ + t)) == Some("https://slug.social/~/"@ + t),
{
    reveal_strlit("~");
    reveal_strlit("~/");
    reveal_strlit("/");
    reveal_strlit("https://slug.social/~/");
    reveal_strlit("https://slug.social/~");
    let none = Seq::<char>::empty();
    let a = "~"@ + t;
    assert(a[0] == '~' && a.last() == t.last());
    lemma_trim_bare(a);
    assert(a.skip(1) =~= t);
    assert(trim_slashes(t) == t);
    let b = "~/"@ + t;
    assert(b[0] == '~' && b.last() == t.last());
    lemma_trim_bare(b);
    let b1 = b.skip(1);
    assert(b1[0] == '/');
    assert(b1.skip(1) =~= t);
    assert(text::trim_char_start(b1, '/') == text::trim_char_start(t, '/'));
    let c = "~/"@ + t + "/"@;
    assert(c[0] == '~' && c.last() == '/');
    lemma_trim_bare(c);
    let c1 = c.skip(1);
    assert(c1[0] == '/');
    let c2 = c1.skip(1);
    assert(c2 =~= t + "/"@);
    assert(c2[0] == t[0]);
    assert(text::trim_char_start(c1, '/') == text::trim_char_start(c2, '/'));
    assert(c2.last() == '/');
    assert(c2.drop_last() =~= t);
    assert(text::trim_char_end(c2, '/') == text::trim_char_end(t, '/'));
    let r = "~"@;
    lemma_trim_bare(r);
    assert(r.skip(1) =~= none);
    assert(trim_slashes(none) == none);
    let q = "~/"@;
    lemma_trim_bare(q);
    let q1 = q.skip(1);
    assert(q1[0] == '/');
    assert(q1.skip(1) =~= none);
    assert(text::trim_char_start(q1, '/') == text::trim_char_start(none, '/'));
    let k = "https://slug.social/~/"@ + t;
    assert(k.subrange(0, 22) =~= "https://slug.social/~/"@);
    assert(k.skip(22) =~= t);
    assert(k.len() != root_key().len());
}

/// A URL is an external item under its own name, written with or without `-/` in front of it;
/// what else stands behind `-/` is a host and a path.
pub proof fn law_external_items(u: Seq<char>, h: Seq<char>)
    requires
        u.len() > 0,
        !text::is_white(u.last()),
        is_bare(h),
        !is_web(h),
        text::has_prefix(u, "https://"@) || text::has_prefix(u, "http://"@),
    ensures
        item_key(u) == Some(u),
        item_key("-/"@ + u) == Some(u),
        item_key("-/"@ + h) == Some("https://"@ + h),
        tilde_tail(u) is None ==> display(u) == "-/"@ + u && item_key(display(u)) == Some(u),
        tilde_tail(u) is None ==> leaf_key(u) == u,
{
    reveal_strlit("-/");
    reveal_strlit("https://");
    reveal_strlit("http://");
    if text::has_prefix(u, "https://"@) {
        assert(u.subrange(0, 8)[0] == 'h');
    } else {
        assert(u.subrange(0, 7)[0] == 'h');
    }
    assert(u[0] == 'h');
    lemma_trim_bare(u);
    assert(!text::has_prefix(u, "-/"@)) by {
        if text::has_prefix(u, "-/"@) {
            assert(u.subrange(0, 2)[0] == '-');
        }
    }
    let a = "-/"@ + u;
    assert(a[0] == '-' && a.last() == u.last());
    lemma_trim_bare(a);
    assert(a.subrange(0, 2) =~= "-/"@);
    assert(a.skip(2) =~= u);
    let b = "-/"@ + h;
    assert(b[0] == '-' && b.last() == h.last());
    lemma_trim_bare(b);
    assert(b.subrange(0, 2) =~= "-/"@);
    assert(b.skip(2) =~= h);
}

/// Any other text names a path of the site; nothing but white space names nothing.
pub proof fn law_site_items(t: Seq<char>)
    requires
        is_bare(t),
        t[0] != '~',
        !is_web(t),
        !text::has_prefix(t, "-/"@),
    ensures
        item_key(t) == Some("https://slug.social/"@ + t),
        item_key("/"@ + t) == Some("https://slug.social/"@ + t),
        item_key(Seq::empty()) is None,
        canonical_item(t) == "https://slug.social/"@ + t,
{
    reveal_strlit("/");
    reveal_strlit("-/");
    reveal_strlit("https://");
    reveal_strlit("http://");
    reveal_strlit("https://slug.social/");
    lemma_trim_bare(t);
    let a = "/"@ + t;
    assert(a[0] == '/' && a.last() == t.last());
    assert(!text::is_white('/'));
    lemma_trim_bare(a);
    assert(a.skip(1) =~= t);
    assert(text::trim_char_start(a, '/') == text::trim_char_start(t, '/'));
    assert(!text::has_prefix(a, "-/"@)) by {
        if text::has_prefix(a, "-/"@) {
            assert(a.subrange(0, 2)[0] == '-');
        }
    }
    assert(!is_web(a)) by {
        if text::has_prefix(a, "http://"@) {
            assert(a.subrange(0, 7)[0] == 'h');
        }
        if text::has_prefix(a, "https://"@) {
            assert(a.subrange(0, 8)[0] == 'h');
        }
    }
    let none = Seq::<char>::empty();
    assert(text::trim_start(none) == none);
    assert(text::trim_end(none) == none);
    let k = "https://slug.social/"@ + t;
    assert(k.last() == t.last());
    assert(normal_key(k) == k);
}

/// An item of the ontology is known by the last segment of its path, and lies one segment below
/// its parent; the root is the parent of a single segment and has none itself.
pub proof fn law_ontology_paths(front: Seq<char>, last: Seq<char>)
    requires
        front.len() > 0,
        !last.contains('/'),
        last.len() > 0,
    ensures
        leaf_key("https://slug.social/~/"@ + front + "/"@ + last) == "https://slug.social/~/"@ + last,
        leaf_key("https://slug.social/~/"@ + last) == "https://slug.social/~/"@ + last,
        parent_key("https://slug.social/~/"@ + front + "/"@ + last) == Some(
            "https://slug.social/~/"@ + front,
        ),
        parent_key("https://slug.social/~/"@ + last) == Some("https://slug.social/~"@),
        parent_key("https://slug.social/~"@) is None,
        last_piece(front + "/"@ + last) == last,
        last_piece(last) == last,
{
    reveal_strlit("/");
    reveal_strlit("https://slug.social/~/");
    reveal_strlit("https://slug.social/~");
    let base = "https://slug.social/~/"@;
    let tail = front + "/"@ + last;
    let k = base + front + "/"@ + last;
    assert(k =~= base + tail);
    assert(k.subrange(0, 22) =~= base);
    assert(k.skip(22) =~= tail);
    assert(k.len() > 22);
    lemma_rfind(tail, '/');
    let at = front.len() as int;
    assert(tail[at] == '/');
    match rfind(tail, '/') {
        Some(i) => {
            if i > at {
                assert(tail[i] == last[i - at - 1]);
                assert(last.contains('/'));
            }
            assert(i == at);
        },
        None => {
            assert(tail.contains('/'));
        },
    }
    assert(tail.skip(at + 1) =~= last);
    assert(tail.take(at) =~= front);
    lemma_rfind(last, '/');
    match rfind(last, '/') {
        Some(i) => {
            assert(last.contains('/'));
        },
        None => {},
    }
    let k2 = base + last;
    assert(k2.subrange(0, 22) =~= base);
    assert(k2.skip(22) =~= last);
    assert(k2.len() > 22);
    assert(root_key().len() == 21);
}

/// The parent of an external item is its URL without the last segment, down to the host; and a
/// bare host has none.
pub proof fn law_external_paths(front: Seq<char>, last: Seq<char>, host: Seq<char>)
    requires
        !last.contains('/'),
        !host.contains('/'),
        tilde_tail("https://"@ + front + "/"@ + last) is None,
        tilde_tail("https://"@ + host) is None,
    ensures
        parent_key("https://"@ + front + "/"@ + last) == Some("https://"@ + front),
        parent_key("https://"@ + host) is None,
{
    reveal_strlit("/");
    reveal_strlit("https://");
    reveal_strlit("http://");
    let base = "https://"@;
    let tail = front + "/"@ + last;
    let k = base + front + "/"@ + last;
    assert(k =~= base + tail);
    assert(k.subrange(0, 8) =~= base);
    assert(text::has_prefix(k, base));
    assert(k.skip(8) =~= tail);
    lemma_rfind(tail, '/');
    let at = front.len() as int;
    assert(tail[at] == '/');
    match rfind(tail, '/') {
        Some(i) => {
            if i > at {
                assert(tail[i] == last[i - at - 1]);
                assert(last.contains('/'));
            }
            assert(i == at);
        },
        None => {
            assert(tail.contains('/'));
        },
    }
    assert(k.take(8 + at) =~= base + front);
    let h = base + host;
    assert(h.subrange(0, 8) =~= base);
    assert(text::has_prefix(h, base));
    assert(h.skip(8) =~= host);
    lemma_rfind(host, '/');
    match rfind(host, '/') {
        Some(i) => {
            assert(host.contains('/'));
        },
        None => {},
    }
}

/// The scheme of a URL that lost a slash on its way is mended, and nothing else is changed.
pub proof fn law_mended_schemes(rest: Seq<char>)
    requires
        rest.len() > 0,
        rest[0] != '/',
    ensures
        repair_scheme("https:/"@ + rest) == "https://"@ + rest,
        repair_scheme("http:/"@ + rest) == "http://"@ + rest,
        repair_scheme("https://"@ + rest) == "https://"@ + rest,
        rest[0] != 'h' ==> repair_scheme(rest) == rest,
{
    reveal_strlit("https:/");
    reveal_strlit("http:/");
    reveal_strlit("https://");
    reveal_strlit("http://");
    let a = "https:/"@ + rest;
    assert(a.subrange(0, 7) =~= "https:/"@);
    assert(a.skip(7) =~= rest);
    assert(a[7] == rest[0] && a[4] == 's');
    if text::has_prefix(a, "https://"@) {
        assert(a.subrange(0, 8)[7] == '/');
    }
    if text::has_prefix(a, "http://"@) {
        assert(a.subrange(0, 7)[4] == ':');
    }
    let b = "http:/"@ + rest;
    assert(b.subrange(0, 6) =~= "http:/"@);
    assert(b.skip(6) =~= rest);
    assert(b[6] == rest[0] && b[4] == ':');
    if text::has_prefix(b, "https://"@) {
        assert(b.subrange(0, 8)[4] == 's');
    }
    if text::has_prefix(b, "http://"@) {
        assert(b.subrange(0, 7)[6] == '/');
    }
    if text::has_prefix(b, "https:/"@) {
        assert(b.subrange(0, 7)[4] == 's');
    }
    let c = "https://"@ + rest;
    assert(c.subrange(0, 8) =~= "https://"@);
    if rest[0] != 'h' {
        if text::has_prefix(rest, "https://"@) {
            assert(rest.subrange(0, 8)[0] == 'h');
        }
        if text::has_prefix(rest, "http://"@) {
            assert(rest.subrange(0, 7)[0] == 'h');
        }
        if text::has_prefix(rest, "https:/"@) {
            assert(rest.subrange(0, 7)[0] == 'h');
        }
        if text::has_prefix(rest, "http:/"@) {
            assert(rest.subrange(0, 6)[0] == 'h');
        }
    }
}

/// The path behind `/-/` stands for a URL: as it is where it is one, mended where its scheme lost
/// a slash, and over HTTPS where it has none.
pub proof fn law_external_keys(u: Seq<char>, h: Seq<char>)
    requires
        is_web(u),
        text::trim(u) == u,
        is_bare(h),
        h[0] != 'h',
    ensures
        external_key(u) == u,
        external_key(h) == "https://"@ + h,
        external_key("/"@ + h) == "https://"@ + h,
{
    reveal_strlit("/");
    reveal_strlit("https://");
    reveal_strlit("http://");
    reveal_strlit("-/");
    law_full_url_is_its_own_key(u);
    law_mended_schemes(h);
    let none = Seq::<char>::empty();
    assert(text::trim_char_start(h, '/') == h);
    let s = "/"@ + h;
    assert(s[0] == '/');
    assert(s.skip(1) =~= h);
    assert(text::trim_char_start(s, '/') == text::trim_char_start(h, '/'));
    if text::has_prefix(h, "https://"@) {
        assert(h.subrange(0, 8)[0] == 'h');
    }
    if text::has_prefix(h, "http://"@) {
        assert(h.subrange(0, 7)[0] == 'h');
    }
    let r = "-/"@ + h;
    assert(r[0] == '-' && r.last() == h.last());
    lemma_trim_bare(r);
    assert(r.subrange(0, 2) =~= "-/"@);
    assert(r.skip(2) =~= h);
    assert(text::trim_char_end(h, '/') == h);
}

/// An old spelling of an external path, without a scheme, is sent to the full one; an empty path
/// is not sent anywhere.
pub proof fn law_old_spellings(h: Seq<char>)
    requires
        is_bare(h),
        h[0] != 'h',
        tilde_tail("https://"@ + h) is None,
    ensures
        legacy_target(h) == Some("/-/https://"@ + h),
        legacy_target(Seq::empty()) is None,
{
    reveal_strlit("/");
    reveal_strlit("https://");
    reveal_strlit("http://");
    reveal_strlit("-/");
    reveal_strlit("/-/https://");
    law_mended_schemes(h);
    assert(text::trim_char_start(h, '/') == h);
    if text::has_prefix(h, "https://"@) {
        assert(h.subrange(0, 8)[0] == 'h');
    }
    if text::has_prefix(h, "http://"@) {
        assert(h.subrange(0, 7)[0] == 'h');
    }
    let r = "-/"@ + h;
    assert(r[0] == '-' && r.last() == h.last());
    lemma_trim_bare(r);
    assert(r.subrange(0, 2) =~= "-/"@);
    assert(r.skip(2) =~= h);
    assert(text::trim_char_end(h, '/') == h);
    let k = "https://"@ + h;
    assert(k.subrange(0, 8) =~= "https://"@);
    assert(is_web(k));
    let d = display(k);
    assert(d == "-/"@ + k);
    assert(d[0] == '-');
    assert(text::trim_char_start(d, '/') == d);
    assert("/"@ + d =~= "/-/https://"@ + h);
    assert(text::trim_char_start(Seq::<char>::empty(), '/').len() == 0);
}

/// The trail of an external item starts where nothing lies above it any more, or nothing outside
/// the ontology.
pub proof fn law_external_trail_starts_at_the_top(key: Seq<char>)
    ensures
        external_parent(external_ancestors(key)[0]) is None,
        key != "https://."@ ==> external_chain(key) == external_ancestors(key),
        external_chain("https://."@).len() == 0,
    decreases key.len(),
{
    law_external_crumbs_climb(key);
    match external_parent(key) {
        Some(p) => {
            law_external_trail_starts_at_the_top(p);
            law_external_crumbs_climb(p);
        },
        None => {},
    }
}

} // verus!
