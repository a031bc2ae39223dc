//! The item that a reader has pinned, kept in a cookie, and what its controls offer.

use vstd::prelude::*;
use vstd::utf8::{decode_utf8, encode_utf8, encode_utf8_decode_utf8, encode_utf8_valid_utf8, valid_utf8};

use crate::nav::ThreadNav;
use crate::outside;
use crate::paths::{self, ItemId};
use crate::state::ContentState;
use crate::text;
use crate::unicode;
use crate::votes;

verus! {

/// The name of the cookie.
pub const GARDEN_PIN_COOKIE: &'static str = "slug_garden_pin";

/// What stands between the room and the item.
pub const PIN_COOKIE_SEP: char = '\u{1f}';

/// A room and the item that is pinned there.
pub open spec fn pin_in_text(raw: Seq<char>) -> Option<(Seq<char>, Seq<char>)> {
    match text::split_once(raw, PIN_COOKIE_SEP) {
        Some((room, rest)) => match paths::item_key(text::trim(rest)) {
            Some(k) => Some((text::trim(room), paths::normal_key(k))),
            None => None,
        },
        None => None,
    }
}

/// The text of a cookie, given what it decodes to: that, or the cookie itself where it is not
/// encoded.
pub open spec fn cookie_text(value: Seq<char>, decoded: Option<Seq<u8>>) -> Option<Seq<char>> {
    match decoded {
        Some(b) => if valid_utf8(b) {
            Some(decode_utf8(b))
        } else {
            None
        },
        None => Some(value),
    }
}

/// The pinned item of a cookie, given what it decodes to.
pub open spec fn pin_in_cookie(value: Seq<char>, decoded: Option<Seq<u8>>) -> Option<
    (Seq<char>, Seq<char>),
> {
    match cookie_text(value, decoded) {
        Some(raw) => pin_in_text(raw),
        None => None,
    }
}

/// A room and the item that is pinned there.
pub struct Pin {
    pub room: String,
    pub item: ItemId,
}

/// The view of an optional pin.
pub open spec fn opt_pin(p: Option<Pin>) -> Option<(Seq<char>, Seq<char>)> {
    match p {
        Some(q) => Some((q.room@, q.item@)),
        None => None,
    }
}

/// Reads the room and the item of a pin.
pub fn pin_from_text(raw: &str) -> (r: Option<Pin>)
    ensures
        opt_pin(r) == pin_in_text(raw@),
{
    match text::split_at_first(&text::chars(raw), PIN_COOKIE_SEP) {
        Some((room, rest)) => {
            let item: String = text::string(&text::trimmed(&rest));
            match ItemId::parse(item.as_str()) {
                Some(k) => Some(
                    Pin {
                        room: text::string(&text::trimmed(&room)),
                        item: k.normalized_storage(),
                    },
                ),
                None => None,
            }
        },
        None => None,
    }
}

/// The pinned item of a cookie that decodes to some bytes, or that is not encoded.
pub fn pin_from_decoded(value: &str, decoded: Option<Vec<u8>>) -> (r: Option<Pin>)
    ensures
        opt_pin(r) == pin_in_cookie(
            value@,
            match decoded {
                Some(b) => Some(b@),
                None => None,
            },
        ),
{
    match decoded {
        Some(b) => match unicode::from_utf8(b) {
            Some(raw) => {
                proof {
                    encode_utf8_decode_utf8(raw@);
                    encode_utf8_valid_utf8(raw@);
                }
                pin_from_text(raw.as_str())
            },
            None => None,
        },
        None => pin_from_text(value),
    }
}

/// The pinned item of a cookie.
pub fn pinned_item(value: &str) -> (r: Option<Pin>)
    ensures
        opt_pin(r) == pin_in_cookie(value@, outside::base64_bytes(value@)),
{
    let decoded: Option<Vec<u8>> = outside::base64_decode(value);
    proof {
        if decoded is Some {
            outside::law_base64_round_trip(decoded.unwrap()@);
        }
    }
    pin_from_decoded(value, decoded)
}

/// The text of a pin before it is encoded.
pub open spec fn pin_text(room: Seq<char>, item: Seq<char>) -> Seq<char> {
    room.push(PIN_COOKIE_SEP) + item
}

/// The value of the cookie that pins an item. Reading it gives the pin back.
pub fn encode_pin_cookie_value(room: &str, item_storage: &str) -> (r: String)
    requires
        encode_utf8(pin_text(room@, item_storage@)).len() <= usize::MAX / 8,
    ensures
        r@ == outside::base64_text(encode_utf8(pin_text(room@, item_storage@))),
        pin_in_cookie(r@, outside::base64_bytes(r@)) == pin_in_text(
            pin_text(room@, item_storage@),
        ),
{
    let mut raw: String = room.to_owned();
    raw.push(PIN_COOKIE_SEP);
    raw.append(item_storage);
    assert(raw@ =~= pin_text(room@, item_storage@));
    let bytes: Vec<u8> = raw.as_str().as_bytes_vec();
    proof {
        encode_utf8_decode_utf8(raw@);
        encode_utf8_valid_utf8(raw@);
        outside::law_base64_round_trip(bytes@);
    }
    outside::base64_encode(&bytes)
}

/// The pin that is written is the pin that is read: the room comes back without white space
/// around it, the item under its storage key.
pub proof fn law_pin_round_trip(room: Seq<char>, item: Seq<char>)
    requires
        !room.contains(PIN_COOKIE_SEP),
    ensures
        pin_in_text(pin_text(room, item)) == match paths::item_key(text::trim(item)) {
            Some(k) => Some((text::trim(room), paths::normal_key(k))),
            None => None,
        },
{
    let raw = pin_text(room, item);
    assert(raw[room.len() as int] == PIN_COOKIE_SEP);
    assert(text::occurs_at(raw, seq![PIN_COOKIE_SEP], room.len() as int)) by {
        assert(raw.subrange(room.len() as int, room.len() as int + 1) =~= seq![PIN_COOKIE_SEP]);
    }
    text::lemma_find(raw, seq![PIN_COOKIE_SEP], 0);
    let at = text::find(raw, seq![PIN_COOKIE_SEP], 0).unwrap();
    assert(at == room.len()) by {
        if at < room.len() {
            assert(raw.subrange(at, at + 1)[0] == raw[at]);
            assert(room[at] == PIN_COOKIE_SEP);
            assert(false);
        }
    }
    assert(raw.take(at) =~= room);
    assert(raw.skip(at + 1) =~= item);
}

// ---------------------------------------------------------------------------
// Controls
// ---------------------------------------------------------------------------

/// What the page of an item offers.
pub enum PinControl {
    /// Nothing is pinned in this room: the item can be.
    Pin,
    /// The item is pinned.
    Unpin,
    /// Another item is pinned: the two can be compared.
    Vote(String),
}

/// The item that is pinned in a room.
pub open spec fn pinned_here(pin: Option<(Seq<char>, Seq<char>)>, room: Seq<char>) -> Option<Seq<char>> {
    match pin {
        Some((r, i)) => if r == room {
            Some(i)
        } else {
            None
        },
        None => None,
    }
}

/// The key of the item of a page.
pub open spec fn current_key(storage: Seq<char>) -> Seq<char> {
    match paths::item_key(storage) {
        Some(k) => k,
        None => storage,
    }
}

/// What the page of an item offers a reader.
pub fn pin_control(nav: &ThreadNav, current_storage: &str, pinned: &Option<Pin>) -> (r: PinControl)
    ensures
        match pinned_here(opt_pin(*pinned), nav@.room_wire) {
            None => r is Pin,
            Some(i) => if i == current_key(current_storage@) {
                r is Unpin
            } else {
                match r {
                    PinControl::Vote(href) => href@ == votes::compare_href(
                        nav@,
                        i,
                        current_key(current_storage@),
                        None,
                        None,
                        None,
                    ),
                    _ => false,
                }
            },
        },
{
    let current: ItemId = match ItemId::parse(current_storage) {
        Some(i) => i,
        None => ItemId::opaque(current_storage.to_owned()),
    };
    match pinned {
        Some(p) => {
            if !text::same(p.room.as_str(), nav.wire()) {
                return PinControl::Pin;
            }
            if p.item.same(&current) {
                PinControl::Unpin
            } else {
                PinControl::Vote(
                    votes::vote_compare_href(nav, &p.item, &current, None, None, None),
                )
            }
        },
        None => PinControl::Pin,
    }
}

/// What a row of a ranking offers.
pub enum RowControl {
    /// Nothing is pinned in this room.
    Nothing,
    /// The row is the pinned item.
    PinnedHere,
    /// The row can be compared with the pinned item.
    Vote { href: String, votes: usize, tip: String, aria: String },
}

/// The ending of the word for a number of votes.
pub open spec fn vote_ending(n: nat) -> Seq<char> {
    if n == 1 {
        Seq::empty()
    } else {
        "s"@
    }
}

/// What the link of a row says about its votes.
pub open spec fn row_tip(n: nat) -> Seq<char> {
    "Compare and vote — "@ + text::decimal(n) + " pairwise vote"@ + vote_ending(n)
        + " in this scope for pinned vs this row"@
}

/// What a row of a ranking offers a reader.
pub fn child_row_control(
    nav: &ThreadNav,
    row_item: &ItemId,
    pinned: &Option<Pin>,
    content: &ContentState,
) -> (r: RowControl)
    ensures
        match pinned_here(opt_pin(*pinned), nav@.room_wire) {
            None => r is Nothing,
            Some(i) => if i == row_item@ {
                r is PinnedHere
            } else {
                let n = votes::edge_votes(*content, i, row_item@).len();
                match r {
                    RowControl::Vote { href, votes, tip, aria } => href@ == votes::compare_href(
                        nav@,
                        i,
                        row_item@,
                        None,
                        None,
                        None,
                    ) && votes == n && tip@ == row_tip(n) && aria@ == "Vote; "@ + text::decimal(n)
                        + " pairwise vote"@ + vote_ending(n),
                    _ => false,
                }
            },
        },
{
    let p: &Pin = match pinned {
        Some(p) => p,
        None => {
            return RowControl::Nothing;
        },
    };
    if !text::same(p.room.as_str(), nav.wire()) {
        return RowControl::Nothing;
    }
    if p.item.same(row_item) {
        return RowControl::PinnedHere;
    }
    let n: usize = votes::edge_vote_count_for_pair(content, &p.item, row_item);
    let d: String = text::size(n);
    let ending: &str = if n == 1 {
        ""
    } else {
        "s"
    };
    proof {
        reveal_strlit("");
    }
    assert(ending@ =~= vote_ending(n as nat));
    RowControl::Vote {
        href: votes::vote_compare_href(nav, &p.item, row_item, None, None, None),
        votes: n,
        tip: text::cat5(
            "Compare and vote — ",
            d.as_str(),
            " pairwise vote",
            ending,
            " in this scope for pinned vs this row",
        ),
        aria: text::cat4("Vote; ", d.as_str(), " pairwise vote", ending),
    }
}

/// An item is pinned in the room where it was pinned, and in no other.
pub proof fn law_pins_belong_to_a_room(room: Seq<char>, other: Seq<char>, item: Seq<char>)
    requires
        room != other,
    ensures
        pinned_here(Some((room, item)), room) == Some(item),
        pinned_here(Some((room, item)), other) is None,
        pinned_here(None, room) is None,
{
}

/// A cookie that is encoded is read by what it decodes to, and one that is not by itself.
pub proof fn law_cookies(value: Seq<char>, b: Seq<u8>)
    ensures
        valid_utf8(b) ==> cookie_text(value, Some(b)) == Some(decode_utf8(b)),
        !valid_utf8(b) ==> cookie_text(value, Some(b)) is None,
        cookie_text(value, None) == Some(value),
{
}

/// A pin is read from what a cookie decodes to, and from nothing else.
pub proof fn law_pins_in_cookies(value: Seq<char>, b: Seq<u8>, n: nat)
    ensures
        valid_utf8(b) ==> pin_in_cookie(value, Some(b)) == pin_in_text(decode_utf8(b)),
        !valid_utf8(b) ==> pin_in_cookie(value, Some(b)) is None,
        pin_in_cookie(value, None) == pin_in_text(value),
        row_tip(1) == "Compare and vote — "@ + text::decimal(1) + " pairwise vote"@
            + " in this scope for pinned vs this row"@,
        n != 1 ==> row_tip(n) == "Compare and vote — "@ + text::decimal(n) + " pairwise votes"@
            + " in this scope for pinned vs this row"@,
{
    reveal_strlit(" pairwise vote");
    reveal_strlit(" pairwise votes");
    reveal_strlit("s");
    let a = "Compare and vote — "@;
    let z = " in this scope for pinned vs this row"@;
    assert(a + text::decimal(1) + " pairwise vote"@ + Seq::<char>::empty() + z =~= a + text::decimal(1)
        + " pairwise vote"@ + z);
    if n != 1 {
        assert(a + text::decimal(n) + " pairwise vote"@ + "s"@ + z =~= a + text::decimal(n)
            + " pairwise votes"@ + z);
    }
}

} // verus!
