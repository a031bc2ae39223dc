//! Usernames and agent ids in the form in which they are stored: without `@`.

use vstd::prelude::*;
use vstd::utf8::encode_utf8;

use crate::outside;
use crate::text;
use crate::unicode;

verus! {

/// The characters of a username.
pub open spec fn is_username_char(c: char) -> bool {
    'a' <= c <= 'z' || '0' <= c <= '9' || c == '-' || c == '_'
}

/// What is wrong with a lowercase username, if anything: more than 32 bytes, or a character
/// that usernames do not have.
pub open spec fn username_fault(u: Seq<char>) -> Option<Seq<char>> {
    if encode_utf8(u).len() > 32 {
        Some("username must be 1-32 characters"@)
    } else if exists|i: int| 0 <= i < u.len() && !is_username_char(#[trigger] u[i]) {
        Some("username must be lowercase alphanumeric with '-' or '_' only"@)
    } else {
        None
    }
}

/// A text result, seen as texts.
pub open spec fn result_view(r: Result<String, String>) -> Result<Seq<char>, Seq<char>> {
    match r {
        Ok(s) => Ok(s@),
        Err(e) => Err(e@),
    }
}

/// The username that an input stands for, given its trimmed text in small letters.
pub open spec fn username_of(input: Seq<char>, lower: Seq<char>) -> Result<Seq<char>, Seq<char>> {
    let s = text::trim(input);
    if s.len() == 0 {
        Err("username must not be empty"@)
    } else if s.contains('@') {
        Err("username must not contain '@' — use stored form (e.g. `tommy`)"@)
    } else {
        match username_fault(lower) {
            Some(e) => Err(e),
            None => Ok(lower),
        }
    }
}

/// Checks a lowercase username.
pub fn validate_username_naked(u: &str) -> (r: Result<(), String>)
    ensures
        match r {
            Ok(_) => username_fault(u@) is None,
            Err(e) => username_fault(u@) == Some(e@),
        },
{
    if u.as_bytes().len() > 32 {
        return Err("username must be 1-32 characters".to_owned());
    }
    let cs: Vec<char> = text::chars(u);
    let mut i: usize = 0;
    while i < cs.len()
        invariant
            i <= cs.len(),
            cs@ == u@,
            encode_utf8(u@).len() <= 32,
            forall|j: int| 0 <= j < i ==> is_username_char(#[trigger] u@[j]),
        decreases cs.len() - i,
    {
        let c: char = cs[i];
        let ok: bool = ('a' <= c && c <= 'z') || ('0' <= c && c <= '9') || c == '-' || c == '_';
        if !ok {
            assert(!is_username_char(u@[i as int]));
            return Err("username must be lowercase alphanumeric with '-' or '_' only".to_owned());
        }
        i = i + 1;
    }
    Ok(())
}

/// The username for an input whose trimmed text in small letters is given.
pub fn username_from(input: &str, lower: &str) -> (r: Result<String, String>)
    ensures
        result_view(r) == username_of(input@, lower@),
{
    let s: Vec<char> = text::trimmed(&text::chars(input));
    if s.len() == 0 {
        return Err("username must not be empty".to_owned());
    }
    if text::has_char(&s, '@') {
        return Err("username must not contain '@' — use stored form (e.g. `tommy`)".to_owned());
    }
    match validate_username_naked(lower) {
        Ok(_) => Ok(lower.to_owned()),
        Err(e) => Err(e),
    }
}

/// Reads a username: trims it, rejects `@`, and lowers it. What is read is a username in its
/// stored form, which reads as itself.
pub fn parse_username(input: &str) -> (r: Result<String, String>)
    ensures
        result_view(r) == username_of(input@, unicode::lowercase(text::trim(input@))),
        match r {
            Ok(u) => username_of(u@, unicode::lowercase(text::trim(u@))) == Ok::<
                Seq<char>,
                Seq<char>,
            >(u@),
            Err(_) => true,
        },
{
    let s: String = text::trim_str(input);
    let lower: String = unicode::to_lowercase(s.as_str());
    let r: Result<String, String> = username_from(input, lower.as_str());
    proof {
        if r is Ok {
            law_usernames_are_stable(input@, lower@);
            assert forall|i: int| 0 <= i < lower@.len() implies (#[trigger] lower@[i]) as u32
                <= 127 by {
                assert(is_username_char(lower@[i]));
            }
            assert(vstd::utf8::is_ascii_chars(lower@));
            assert(text::lower_ascii(lower@) =~= lower@) by {
                assert forall|i: int| 0 <= i < lower@.len() implies text::lower(
                    #[trigger] lower@[i],
                ) == lower@[i] by {
                    assert(is_username_char(lower@[i]));
                }
            }
        }
    }
    r
}

/// A stored username has the characters of usernames alone, no white space around it, and is
/// accepted as it stands: the small letters of a text that is not empty are not empty.
pub proof fn law_usernames_are_stable(input: Seq<char>, lower: Seq<char>)
    requires
        username_of(input, lower) is Ok,
        text::trim(input).len() > 0 ==> lower.len() > 0,
    ensures
        forall|i: int| 0 <= i < lower.len() ==> is_username_char(#[trigger] lower[i]),
        text::trim(lower) == lower,
        username_of(lower, lower) == username_of(input, lower),
{
    assert forall|i: int| 0 <= i < lower.len() implies is_username_char(#[trigger] lower[i]) by {}
    assert(!text::is_white(lower[0]));
    assert(!text::is_white(lower.last())) by {
        assert(is_username_char(lower[lower.len() - 1]));
    }
    assert(text::trim(lower) == lower);
    assert(!lower.contains('@')) by {
        assert forall|i: int| 0 <= i < lower.len() implies lower[i] != '@' by {
            assert(is_username_char(lower[i]));
        }
    }
}

/// What is wrong with a lowercase agent id, if anything.
pub open spec fn agent_fault(a: Seq<char>) -> Option<Seq<char>> {
    let parts = text::split(a, ':');
    if parts.len() != 3 {
        Some("agent must be <uuid>:<rig>:<provider/model>"@)
    } else if !outside::is_uuid(parts[0]) {
        Some("agent uuid must be a valid UUID v4"@)
    } else if text::trim(parts[1]).len() == 0 {
        Some("agent rig must be non-empty"@)
    } else if !parts[2].contains('/') {
        Some("agent model must be <provider/model>"@)
    } else {
        None
    }
}

/// The agent id that an input stands for, given its trimmed text in small letters.
pub open spec fn agent_of(input: Seq<char>, lower: Seq<char>) -> Result<Seq<char>, Seq<char>> {
    let s = text::trim(input);
    if s.len() == 0 {
        Err("agent id must not be empty"@)
    } else if s.contains('@') {
        Err("agent id must not contain '@' — use `uuid:rig:provider/model`"@)
    } else {
        match agent_fault(lower) {
            Some(e) => Err(e),
            None => Ok(lower),
        }
    }
}

/// Checks a lowercase agent id.
pub fn validate_agent_naked(a: &str) -> (r: Result<(), String>)
    ensures
        match r {
            Ok(_) => agent_fault(a@) is None,
            Err(e) => agent_fault(a@) == Some(e@),
        },
{
    let parts: Vec<String> = text::split_chars(&text::chars(a), ':');
    let ghost ps = text::split(a@, ':');
    assert(ps.len() == parts@.len());
    if parts.len() != 3 {
        return Err("agent must be <uuid>:<rig>:<provider/model>".to_owned());
    }
    assert(ps[0] == parts@[0]@ && ps[1] == parts@[1]@ && ps[2] == parts@[2]@);
    if !outside::parses_as_uuid(parts[0].as_str()) {
        return Err("agent uuid must be a valid UUID v4".to_owned());
    }
    if text::trim_str(parts[1].as_str()).as_str().is_empty() {
        return Err("agent rig must be non-empty".to_owned());
    }
    if !text::has_char(&text::chars(parts[2].as_str()), '/') {
        return Err("agent model must be <provider/model>".to_owned());
    }
    Ok(())
}

/// The agent id for an input whose trimmed text in small letters is given.
pub fn agent_from(input: &str, lower: &str) -> (r: Result<String, String>)
    ensures
        result_view(r) == agent_of(input@, lower@),
{
    let s: Vec<char> = text::trimmed(&text::chars(input));
    if s.len() == 0 {
        return Err("agent id must not be empty".to_owned());
    }
    if text::has_char(&s, '@') {
        return Err("agent id must not contain '@' — use `uuid:rig:provider/model`".to_owned());
    }
    match validate_agent_naked(lower) {
        Ok(_) => Ok(lower.to_owned()),
        Err(e) => Err(e),
    }
}

/// Reads an agent id `uuid:rig:provider/model`: trims it, rejects `@`, and lowers it.
pub fn parse_agent(input: &str) -> (r: Result<String, String>)
    ensures
        result_view(r) == agent_of(input@, unicode::lowercase(text::trim(input@))),
{
    let s: String = text::trim_str(input);
    let lower: String = unicode::to_lowercase(s.as_str());
    agent_from(input, lower.as_str())
}

/// A username is accepted exactly where it is not blank, has no `@`, and its small letters are no
/// more than thirty-two bytes of letters, digits, hyphens and underscores; it is then stored in
/// small letters.
pub proof fn law_usernames(input: Seq<char>, lower: Seq<char>)
    ensures
        username_of(input, lower) is Ok <==> text::trim(input).len() > 0 && !text::trim(
            input,
        ).contains('@') && encode_utf8(lower).len() <= 32 && forall|i: int|
            0 <= i < lower.len() ==> {
                let c = #[trigger] lower[i];
                'a' <= c <= 'z' || '0' <= c <= '9' || c == '-' || c == '_'
            },
        username_of(input, lower) is Ok ==> username_of(input, lower) == Ok::<Seq<char>, Seq<char>>(
            lower,
        ),
        text::trim(input).len() == 0 ==> username_of(input, lower) == Err::<Seq<char>, Seq<char>>(
            "username must not be empty"@,
        ),
{
    if username_of(input, lower) is Ok {
        assert forall|i: int| 0 <= i < lower.len() implies {
            let c = #[trigger] lower[i];
            'a' <= c <= 'z' || '0' <= c <= '9' || c == '-' || c == '_'
        } by {
            assert(is_username_char(lower[i]));
        }
    }
}

/// An agent is accepted exactly where it is not blank, has no `@`, and its small letters are a
/// UUID, a rig that is not blank, and a model with a provider, between colons.
pub proof fn law_agents(input: Seq<char>, uuid: Seq<char>, rig: Seq<char>, model: Seq<char>)
    requires
        !uuid.contains(':'),
        !rig.contains(':'),
        !model.contains(':'),
        text::trim(input).len() > 0,
        !text::trim(input).contains('@'),
    ensures
        agent_of(input, uuid.push(':') + (rig.push(':') + model)) is Ok <==> outside::is_uuid(uuid)
            && text::trim(rig).len() > 0 && model.contains('/'),
        agent_of(input, uuid.push(':') + (rig.push(':') + model)) is Ok ==> agent_of(
            input,
            uuid.push(':') + (rig.push(':') + model),
        ) == Ok::<Seq<char>, Seq<char>>(uuid.push(':') + (rig.push(':') + model)),
        agent_of(input, uuid) is Err,
{
    text::law_split(uuid, rig.push(':') + model, ':');
    text::law_split(rig, model, ':');
    text::law_split(model, model, ':');
    let parts = text::split(uuid.push(':') + (rig.push(':') + model), ':');
    assert(parts =~= seq![uuid, rig, model]);
}

} // verus!
