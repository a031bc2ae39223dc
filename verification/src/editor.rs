//! The page to try posts on: what it says of a post, and which rankings it shows.

use vstd::prelude::*;

use crate::item_page::WrittenVote;
use crate::paths::{self, ItemId};
use crate::sort;
use crate::text;

verus! {

/// The form that has a post checked.
#[derive(Debug)]
pub struct EditorCheckForm {
    pub text: String,
}

/// What is said of a post that is not valid: the fault, and a hint where there is one.
pub fn editor_error_text(msg: &str, hint: Option<&str>) -> (r: String)
    ensures
        r@ == match hint {
            Some(h) => msg@ + " — "@ + h@,
            None => msg@,
        },
{
    match hint {
        Some(h) => text::cat3(msg, " — ", h),
        None => msg.to_owned(),
    }
}

/// The parent of a key, if it has one, as a list.
pub open spec fn parent_list(key: Seq<char>) -> Seq<Seq<char>> {
    match paths::parent_key(key) {
        Some(p) => seq![p],
        None => Seq::empty(),
    }
}

/// The parents of the items of some votes; votes on what are no items are left out.
pub open spec fn vote_parents(v: Seq<WrittenVote>) -> Seq<Seq<char>>
    decreases v.len(),
{
    if v.len() == 0 {
        Seq::empty()
    } else {
        let front = vote_parents(v.drop_last());
        match (paths::item_key(v.last().item1@), paths::item_key(v.last().item2@)) {
            (Some(a), Some(b)) => front + parent_list(a) + parent_list(b),
            _ => front,
        }
    }
}

fn push_parent(out: &mut Vec<String>, item: &ItemId)
    ensures
        text::views(final(out)@) == text::views(old(out)@) + parent_list(item@),
{
    let ghost before = text::views(out@);
    match item.parent() {
        Some(p) => {
            out.push(p.to_storage_string());
            assert(text::views(out@) =~= before + seq![p@]);
        },
        None => {
            assert(text::views(out@) =~= before + Seq::<Seq<char>>::empty());
        },
    }
}

/// The scopes that the votes of a post are about, each once, in order.
pub fn voted_parents(votes: &Vec<WrittenVote>) -> (r: Vec<String>)
    ensures
        text::views(r@) == sort::sorted_set(vote_parents(votes@)),
{
    let mut all: Vec<String> = Vec::new();
    let mut i: usize = 0;
    assert(text::views(all@) =~= vote_parents(votes@.take(0)));
    while i < votes.len()
        invariant
            i <= votes.len(),
            text::views(all@) == vote_parents(votes@.take(i as int)),
        decreases votes.len() - i,
    {
        assert(votes@.take(i + 1).drop_last() =~= votes@.take(i as int));
        assert(votes@.take(i + 1).last() == votes@[i as int]);
        match (
            ItemId::parse(votes[i].item1.as_str()),
            ItemId::parse(votes[i].item2.as_str()),
        ) {
            (Some(a), Some(b)) => {
                push_parent(&mut all, &a);
                push_parent(&mut all, &b);
            },
            _ => {},
        }
        i = i + 1;
    }
    assert(votes@.take(votes@.len() as int) =~= votes@);
    sort::sort_unique(&all)
}

/// The heading of the ranking of a scope.
pub open spec fn scope_heading(key: Seq<char>) -> Seq<char> {
    "/"@ + match paths::tilde_tail(key) {
        Some(t) => t,
        None => key,
    }
}

/// The heading of the ranking of a scope.
pub fn ranking_label(parent: &ItemId) -> (r: String)
    ensures
        r@ == scope_heading(parent@),
{
    match parent.tilde_tail() {
        Some(t) => text::cat("/", t.as_str()),
        None => text::cat("/", parent.as_str()),
    }
}

/// Items as they are listed behind one another.
pub open spec fn marked(v: Seq<Seq<char>>) -> Seq<Seq<char>> {
    Seq::new(v.len(), |i: int| "~/"@ + v[i])
}

/// The list of the items without votes.
pub fn unranked_text(items: &Vec<ItemId>) -> (r: String)
    ensures
        r@ == text::join(marked(paths::keys(items@)), ", "@),
{
    let ghost kv = paths::keys(items@);
    let mut parts: Vec<String> = Vec::new();
    let mut i: usize = 0;
    while i < items.len()
        invariant
            i <= items.len(),
            parts.len() == i,
            kv == paths::keys(items@),
            forall|j: int| 0 <= j < i ==> (#[trigger] parts@[j])@ == "~/"@ + kv[j],
        decreases items.len() - i,
    {
        assert(kv[i as int] == items@[i as int]@);
        parts.push(text::cat("~/", items[i].as_str()));
        i = i + 1;
    }
    assert(text::views(parts@) =~= marked(kv));
    text::joined(&parts, ", ")
}

/// The parents that a post votes below are those of the items of its votes, vote by vote.
pub proof fn law_parents_of_votes(v: Seq<WrittenVote>, w: WrittenVote)
    ensures
        vote_parents(Seq::empty()).len() == 0,
        vote_parents(v.push(w)) == match (paths::item_key(w.item1@), paths::item_key(w.item2@)) {
            (Some(a), Some(b)) => vote_parents(v) + (match paths::parent_key(a) {
                Some(p) => seq![p],
                None => Seq::empty(),
            }) + (match paths::parent_key(b) {
                Some(p) => seq![p],
                None => Seq::empty(),
            }),
            _ => vote_parents(v),
        },
{
    assert(v.push(w).drop_last() =~= v);
}

/// A ranking is headed by the path of its scope, and items are listed with `~/` in front.
pub proof fn law_editor_labels(t: Seq<char>, v: Seq<Seq<char>>, i: int)
    requires
        t.len() > 0,
    ensures
        scope_heading("https://slug.social/~/"@ + t) == "/"@ + t,
        marked(v).len() == v.len(),
        0 <= i < v.len() ==> marked(v)[i] == "~/"@ + v[i],
{
    reveal_strlit("https://slug.social/~/");
    reveal_strlit("https://slug.social/~");
    let k = "https://slug.social/~/"@ + t;
    assert(k.subrange(0, 22) =~= "https://slug.social/~/"@);
    assert(k.skip(22) =~= t);
    assert(k.len() != paths::root_key().len());
}

} // verus!
