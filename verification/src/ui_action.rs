//! The commands that pages send: what they are, and the form that carries them.

use vstd::prelude::*;

use crate::outside;
use crate::text;

verus! {

/// The field of the form that holds the command as a template.
pub const UI_RPC_FIELD: &'static str = "__rpc__";

/// Where a form is posted that does not say.
pub fn default_ui_form_action() -> (r: String)
    ensures
        r@ == "/ui"@,
{
    "/ui".to_owned()
}

/// The depth of a ranking that does not say.
pub fn default_garden_rank_depth() -> (r: usize)
    ensures
        r == 1,
{
    1
}

/// A command that a page sends.
#[derive(Debug, Clone, PartialEq, Eq)]
pub enum HtmlUiAction {
    /// Posts to a thread.
    PostIngest {
        room: String,
        thread_tag: String,
        text: String,
        error_target: Option<String>,
        form_id: Option<String>,
    },
    /// Has a post checked.
    CheckIngest {
        room: String,
        thread_tag: String,
        text: String,
        error_target: Option<String>,
        form_id: Option<String>,
    },
    /// Posts a vote on a pair.
    VoteComparePost {
        room: String,
        thread_tag: String,
        left_item: String,
        right_item: String,
        ratio_left: String,
        ratio_right: String,
        explanation: String,
        next: String,
        pool: Option<String>,
        aspect: Option<String>,
        dom_suffix: Option<String>,
        form_action: String,
    },
    /// Sets or clears the pin.
    SetGardenPin {
        clear: bool,
        room_wire: String,
        item_storage: Option<String>,
        next: String,
        form_action: String,
    },
    /// Imports the children or siblings of an outside item.
    ResolveExternal {
        room_wire: String,
        item_storage: String,
        mode: String,
        next: String,
        form_action: String,
    },
    /// Deletes a post of one's own.
    RedactPost { post_id: String },
    /// Opens or closes the list of members.
    SetRoomMembersExpanded { room_wire: String, expanded: bool },
    /// Deletes a room.
    DeleteRoom { room: String },
    /// Opens or closes the form for a new thread.
    SetNewThreadComposeExpanded { room_wire: String, expanded: bool },
    /// Shows the whole body of a post.
    ExpandPostFull { room: String, thread_tag: String, post_index: usize },
    /// Shows the body of a deleted post.
    ExpandRedactedPost { room: String, thread_tag: String, post_index: usize },
    /// Hides the body of a deleted post.
    CollapseRedactedPost { room: String, thread_tag: String, post_index: usize },
    /// Copies a thread.
    CopyThread { room: String, thread_tag: String, copy_btn_id: String },
    /// Copies a ranking.
    CopyGardenRank {
        room: String,
        parent_path: String,
        depth: usize,
        copy_btn_id: String,
        external_hosts: bool,
    },
    /// Publishes a thread of a room.
    GraduateThread { room: String, thread_tag: String },
}

/// Whether the rest of a command is posted where it says: a command that names where its form
/// goes is only accepted there.
pub fn posted_where_it_says(form_action: &str, path: &str) -> (r: bool)
    ensures
        r == (form_action@ == path@),
{
    text::same(form_action, path)
}

/// The fields of a form apart from the template.
pub open spec fn holes_of(fields: Seq<(Seq<char>, Seq<char>)>) -> Seq<(Seq<char>, Seq<char>)>
    decreases fields.len(),
{
    if fields.len() == 0 {
        Seq::empty()
    } else if fields.last().0 == "__rpc__"@ {
        holes_of(fields.drop_last())
    } else {
        holes_of(fields.drop_last()).push(fields.last())
    }
}

/// The names of the fields.
pub open spec fn field_names(fields: Seq<(Seq<char>, Seq<char>)>) -> Seq<Seq<char>> {
    Seq::new(fields.len(), |i: int| fields[i].0)
}

/// A form split into the template of the command and the fields that fill it.
pub struct UiForm {
    pub template: String,
    pub holes: Vec<(String, String)>,
}

/// The form holds no command.
#[derive(Debug, PartialEq, Eq, Structural)]
pub struct MissingRpc;

/// The message for a form without a command.
pub fn missing_rpc_text() -> (r: &'static str)
    ensures
        r@ == "missing __rpc__ field"@,
{
    "missing __rpc__ field"
}

/// Splits a form into the template of the command and the fields that fill it; fails exactly
/// where it holds no command.
pub fn split_ui_form(fields: &Vec<(String, String)>) -> (r: Result<UiForm, MissingRpc>)
    ensures
        match text::position(field_names(outside::pair_views(fields@)), "__rpc__"@) {
            None => r is Err,
            Some(i) => match r {
                Ok(f) => f.template@ == fields@[i].1@ && outside::pair_views(f.holes@) == holes_of(
                    outside::pair_views(fields@),
                ),
                Err(_) => false,
            },
        },
{
    let ghost fv = outside::pair_views(fields@);
    let ghost names = field_names(fv);
    let mut found: Option<usize> = None;
    let mut holes: Vec<(String, String)> = Vec::new();
    let mut i: usize = 0;
    assert(outside::pair_views(holes@) =~= holes_of(fv.take(0)));
    while i < fields.len()
        invariant
            i <= fields.len(),
            fv == outside::pair_views(fields@),
            names == field_names(fv),
            outside::pair_views(holes@) == holes_of(fv.take(i as int)),
            match found {
                Some(k) => k < i && text::position(names.take(i as int), "__rpc__"@) == Some(
                    k as int,
                ),
                None => text::position(names.take(i as int), "__rpc__"@) is None,
            },
        decreases fields.len() - i,
    {
        assert(fv[i as int] == (fields@[i as int].0@, fields@[i as int].1@));
        assert(fv.take(i + 1).drop_last() =~= fv.take(i as int));
        assert(fv.take(i + 1).last() == fv[i as int]);
        assert(names.take(i + 1).drop_last() =~= names.take(i as int));
        assert(names.take(i + 1).last() == fields@[i as int].0@);
        if text::same(fields[i].0.as_str(), "__rpc__") {
            if found.is_none() {
                found = Some(i);
            }
        } else {
            let ghost before = outside::pair_views(holes@);
            holes.push((fields[i].0.clone(), fields[i].1.clone()));
            assert(outside::pair_views(holes@) =~= before.push(fv[i as int]));
        }
        i = i + 1;
    }
    assert(fv.take(fv.len() as int) =~= fv);
    assert(names.take(names.len() as int) =~= names);
    match found {
        Some(k) => Ok(UiForm { template: fields[k].1.clone(), holes }),
        None => Err(MissingRpc),
    }
}

/// What fills a template never holds the template itself.
pub proof fn law_holes_hold_no_template(fields: Seq<(Seq<char>, Seq<char>)>, i: int)
    requires
        0 <= i < holes_of(fields).len(),
    ensures
        holes_of(fields)[i].0 != "__rpc__"@,
    decreases fields.len(),
{
    let front = holes_of(fields.drop_last());
    if i < front.len() {
        law_holes_hold_no_template(fields.drop_last(), i);
    }
}

/// What fills a template are the fields of a form, all but the template itself, in order.
pub proof fn law_holes_are_the_other_fields(fields: Seq<(Seq<char>, Seq<char>)>)
    ensures
        holes_of(fields) == fields.filter(|f: (Seq<char>, Seq<char>)| f.0 != "__rpc__"@),
    decreases fields.len(),
{
    reveal(Seq::filter);
    if fields.len() > 0 {
        law_holes_are_the_other_fields(fields.drop_last());
    }
    assert(holes_of(fields) =~= fields.filter(|f: (Seq<char>, Seq<char>)| f.0 != "__rpc__"@));
}

} // verus!
