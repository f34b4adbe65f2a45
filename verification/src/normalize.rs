//! Normalization: classifies each raw conversation, derives its type
//! marker, decodes multi-person direct-message member lists, and resolves
//! direct messages to the display name handed in for them.

use vstd::prelude::*;

use crate::conversation::ConversationView;
use crate::conversation::NormalizedConversation;
use crate::conversation::RawConversation;
use crate::error::ListError;
use crate::text::last_index_of;
use crate::text::match_at;
use crate::text::matches_at;
use crate::text::split_on;
use crate::text::split_on_str;
use crate::text::find_last;
use crate::text::lemma_split_on_nonempty;
use crate::text::join_with;

verus! {

/// A private-channel name with this reserved prefix encodes a multi-person
/// direct message.
pub open spec fn is_mpdm_name(name: Seq<char>) -> bool {
    name.len() >= 5 && name.subrange(0, 5) == "mpdm-"@
}

/// The type marker a raw record is assigned: a pure function of its variant
/// and its name prefix, never user-supplied.
pub open spec fn marker_of(raw: RawConversation) -> char {
    match raw {
        RawConversation::PublicChannel { .. } => '#',
        RawConversation::PrivateChannel { .. } => if is_mpdm_name(raw.spec_name()) {
            '&'
        } else {
            '!'
        },
        RawConversation::DirectMessage { .. } => '@',
    }
}

/// Type-marker derivation is total and exclusive: every raw record receives
/// exactly one of the four markers, determined by its variant and name
/// prefix alone.
pub proof fn lemma_marker_total_and_exclusive(raw: RawConversation)
    ensures
        marker_of(raw) == '#' || marker_of(raw) == '!' || marker_of(raw) == '&' || marker_of(raw)
            == '@',
        (marker_of(raw) == '#') <==> raw is PublicChannel,
        (marker_of(raw) == '&') <==> (raw is PrivateChannel && is_mpdm_name(raw.spec_name())),
        (marker_of(raw) == '!') <==> (raw is PrivateChannel && !is_mpdm_name(raw.spec_name())),
        (marker_of(raw) == '@') <==> raw is DirectMessage,
{
}

/// The member-name fragments a multi-person DM channel name encodes: strip
/// the 5-character prefix, drop the trailing disambiguation suffix after the
/// last `'-'`, and split what remains on `"--"`.
pub open spec fn mpdm_members(name: Seq<char>) -> Seq<Seq<char>> {
    let rest = name.skip(5);
    let kept = match last_index_of(rest, '-') {
        Option::Some(i) => rest.take(i),
        Option::None => rest,
    };
    split_on(kept, "--"@)
}

/// Whether a channel name carries the reserved multi-person prefix.
pub fn has_mpdm_prefix(name: &str) -> (r: bool)
    ensures
        r == is_mpdm_name(name@),
{
    proof {
        reveal_strlit("mpdm-");
    }
    let len = name.unicode_len();
    if len < 5 {
        return false;
    }
    match_at(name, "mpdm-", 0)
}

/// Decodes the member names out of a multi-person DM channel name.
pub fn decode_mpdm_name(name: &str) -> (members: Vec<String>)
    requires
        is_mpdm_name(name@),
    ensures
        members.deep_view() == mpdm_members(name@),
        members@.len() >= 1,
{
    proof {
        reveal_strlit("--");
    }
    let len = name.unicode_len();
    let rest = name.substring_char(5, len);
    proof {
        assert(rest@ =~= name@.skip(5));
    }
    let members = match find_last(rest, '-') {
        Some(i) => {
            proof {
                crate::text::lemma_last_index_of_properties(rest@, '-');
            }
            let kept = rest.substring_char(0, i);
            proof {
                assert(kept@ =~= rest@.take(i as int));
            }
            split_on_str(kept, "--")
        },
        None => split_on_str(rest, "--"),
    };
    proof {
        match last_index_of(name@.skip(5), '-') {
            Option::Some(i) => {
                lemma_split_on_nonempty(name@.skip(5).take(i), "--"@);
            },
            Option::None => {
                lemma_split_on_nonempty(name@.skip(5), "--"@);
            },
        }
        assert(members@.len() == members.deep_view().len());
    }
    members
}

/// The channel name the server gives a multi-person DM over the given
/// member names, with the given disambiguation suffix.
pub open spec fn encode_mpdm(names: Seq<Seq<char>>, suffix: Seq<char>) -> Seq<char> {
    "mpdm-"@ + join_with(names, "--"@) + seq!['-'] + suffix
}

/// A joined member list splits back into the member names, as long as no
/// member name contains the separator character.
proof fn lemma_split_join(names: Seq<Seq<char>>)
    requires
        names.len() >= 1,
        forall|i: int| 0 <= i < names.len() ==> !(#[trigger] names[i]).contains('-'),
    ensures
        split_on(join_with(names, "--"@), "--"@) == names,
    decreases names.len(),
{
    reveal_strlit("--");
    let sep = "--"@;
    let j = join_with(names, sep);
    let n0 = names.first();
    assert(!names[0].contains('-'));
    assert(forall|k: int| 0 <= k < n0.len() ==> n0[k] != '-');
    if names.len() == 1 {
        assert(j == n0);
        assert forall|k: int| !matches_at(j, sep, k) by {
            if 0 <= k && k + 2 <= j.len() {
                if j.subrange(k, k + 2) == sep {
                    assert(j.subrange(k, k + 2)[0] == j[k]);
                    assert(j[k] == '-');
                }
            }
        }
        crate::text::lemma_first_match_is_none(j, sep);
        assert(split_on(j, sep) =~= names);
    } else {
        let rest = join_with(names.drop_first(), sep);
        assert(j == n0 + sep + rest);
        let m = n0.len() as int;
        assert(matches_at(j, sep, m)) by {
            assert(j.subrange(m, m + 2) =~= sep);
        }
        assert forall|k: int| 0 <= k < m implies !matches_at(j, sep, k) by {
            if k + 2 <= j.len() {
                if j.subrange(k, k + 2) == sep {
                    assert(j.subrange(k, k + 2)[0] == j[k]);
                    assert(j[k] == '-');
                    assert(j[k] == n0[k]);
                }
            }
        }
        crate::text::lemma_first_match_is_some(j, sep, m);
        assert(j.take(m) =~= n0);
        assert(j.skip(m + 2) =~= rest);
        assert forall|i: int| 0 <= i < names.drop_first().len() implies !(
        #[trigger] names.drop_first()[i]).contains('-') by {
            assert(names.drop_first()[i] == names[i + 1]);
        }
        lemma_split_join(names.drop_first());
        assert(split_on(j, sep) == seq![n0] + names.drop_first());
        assert(seq![n0] + names.drop_first() =~= names);
    }
}

/// Multi-person DM decoding round-trips: the member list read out of an
/// encoded channel name is exactly the member list it was built from, as
/// long as no member name and no suffix contains the separator character.
pub proof fn lemma_mpdm_round_trip(names: Seq<Seq<char>>, suffix: Seq<char>)
    requires
        names.len() >= 1,
        forall|i: int| 0 <= i < names.len() ==> !(#[trigger] names[i]).contains('-'),
        !suffix.contains('-'),
    ensures
        is_mpdm_name(encode_mpdm(names, suffix)),
        mpdm_members(encode_mpdm(names, suffix)) == names,
{
    reveal_strlit("mpdm-");
    let e = encode_mpdm(names, suffix);
    let j = join_with(names, "--"@);
    assert(e.len() == 5 + j.len() + 1 + suffix.len());
    assert(e.subrange(0, 5) =~= "mpdm-"@);
    let rest = e.skip(5);
    assert(rest =~= j + seq!['-'] + suffix);
    let m = j.len() as int;
    assert(rest[m] == '-');
    assert forall|k: int| m < k < rest.len() implies rest[k] != '-' by {
        assert(rest[k] == suffix[k - m - 1]);
        if suffix[k - m - 1] == '-' {
            assert(suffix.contains('-'));
        }
    }
    crate::text::lemma_last_index_of_is_some(rest, '-', m);
    assert(rest.take(m) =~= j);
    lemma_split_join(names);
}

/// Normalizes a channel record (either channel variant). The resolver is
/// never involved: a channel's names come from its own name field.
pub fn normalize_channel(raw: RawConversation) -> (out: NormalizedConversation)
    requires
        !(raw is DirectMessage),
    ensures
        out@ == normal_view(raw, Seq::<char>::empty()),
        out.well_formed(),
{
    match raw {
        RawConversation::PublicChannel { id, name, created: _, is_archived } => {
            let names = vec![name];
            let out = NormalizedConversation {
                id,
                type_marker: '#',
                names,
                is_archived,
                is_deleted: false,
            };
            proof {
                assert(out@.names =~= seq![out.names@[0]@]);
            }
            out
        },
        RawConversation::PrivateChannel { id, name, created: _, is_archived } => {
            if has_mpdm_prefix(name.as_str()) {
                let names = decode_mpdm_name(name.as_str());
                let out = NormalizedConversation {
                    id,
                    type_marker: '&',
                    names,
                    is_archived,
                    is_deleted: false,
                };
                out
            } else {
                let names = vec![name];
                let out = NormalizedConversation {
                    id,
                    type_marker: '!',
                    names,
                    is_archived,
                    is_deleted: false,
                };
                proof {
                    assert(out@.names =~= seq![out.names@[0]@]);
                }
                out
            }
        },
        RawConversation::DirectMessage { .. } => {
            proof {
                assert(false);
            }
            NormalizedConversation {
                id: String::new(),
                type_marker: '@',
                names: Vec::new(),
                is_archived: false,
                is_deleted: false,
            }
        },
    }
}

/// Normalizes a direct-message record around the display name its
/// counterpart user id resolved to.
pub fn normalize_direct_message(raw: RawConversation, display_name: String) -> (out:
    NormalizedConversation)
    requires
        raw is DirectMessage,
    ensures
        out@ == normal_view(raw, display_name@),
        out.well_formed(),
{
    match raw {
        RawConversation::DirectMessage { id, created: _, is_archived, user: _, is_user_deleted } => {
            let names = vec![display_name];
            let out = NormalizedConversation {
                id,
                type_marker: '@',
                names,
                is_archived,
                is_deleted: is_user_deleted,
            };
            proof {
                assert(out@.names =~= seq![out.names@[0]@]);
            }
            out
        },
        _ => {
            proof {
                assert(false);
            }
            NormalizedConversation {
                id: String::new(),
                type_marker: '@',
                names: Vec::new(),
                is_archived: false,
                is_deleted: false,
            }
        },
    }
}

/// The normalized view a raw record maps to, given the display name a
/// direct message resolves to (ignored for the channel variants).
pub open spec fn normal_view(raw: RawConversation, dm_name: Seq<char>) -> ConversationView {
    ConversationView {
        id: raw.spec_id(),
        type_marker: marker_of(raw),
        names: match raw {
            RawConversation::DirectMessage { .. } => seq![dm_name],
            RawConversation::PrivateChannel { .. } => if is_mpdm_name(raw.spec_name()) {
                mpdm_members(raw.spec_name())
            } else {
                seq![raw.spec_name()]
            },
            RawConversation::PublicChannel { .. } => seq![raw.spec_name()],
        },
        is_archived: raw.spec_is_archived(),
        is_deleted: raw.spec_is_user_deleted(),
    }
}

/// How many records of a batch are direct messages, and so owe exactly one
/// resolver lookup each.
pub open spec fn dm_count(raws: Seq<RawConversation>) -> nat
    decreases raws.len(),
{
    if raws.len() == 0 {
        0
    } else {
        dm_count(raws.drop_last()) + if raws.last() is DirectMessage {
            1nat
        } else {
            0nat
        }
    }
}

pub proof fn lemma_dm_count_take_step(s: Seq<RawConversation>, k: int)
    requires
        0 <= k < s.len(),
    ensures
        dm_count(s.take(k + 1)) == dm_count(s.take(k)) + if s[k] is DirectMessage {
            1nat
        } else {
            0nat
        },
{
    assert(s.take(k + 1).drop_last() =~= s.take(k));
    assert(s.take(k + 1).last() == s[k]);
}

pub proof fn lemma_dm_count_bound(s: Seq<RawConversation>, k: int)
    requires
        0 <= k <= s.len(),
    ensures
        dm_count(s.take(k)) <= dm_count(s),
        k < s.len() && s[k] is DirectMessage ==> dm_count(s.take(k)) < dm_count(s),
    decreases s.len() - k,
{
    if k == s.len() {
        assert(s.take(k) =~= s);
    } else {
        lemma_dm_count_take_step(s, k);
        lemma_dm_count_bound(s, k + 1);
    }
}

/// The display names a run of resolver outcomes carries, where it succeeded.
pub open spec fn resolution_names(rs: Seq<Result<String, ListError>>) -> Seq<Seq<char>> {
    rs.map_values(
        |r: Result<String, ListError>|
            match r {
                Result::Ok(n) => n@,
                Result::Err(_) => Seq::<char>::empty(),
            },
    )
}

/// The normalized views of a whole batch, where `names` supplies, in order,
/// the display name each direct message resolves to.
pub open spec fn normalized_views(raws: Seq<RawConversation>, names: Seq<Seq<char>>) -> Seq<
    ConversationView,
> {
    Seq::new(
        raws.len(),
        |k: int|
            normal_view(
                raws[k],
                if raws[k] is DirectMessage {
                    names[dm_count(raws.take(k)) as int]
                } else {
                    Seq::<char>::empty()
                },
            ),
    )
}

/// Normalizes a whole batch around the resolver outcomes handed in for its
/// direct messages, in order. The first resolver failure aborts the whole
/// batch and surfaces as the result: no partial output survives it.
#[verifier::loop_isolation(false)]
pub fn normalize_all(raws: Vec<RawConversation>, resolutions: Vec<Result<String, ListError>>) -> (r:
    Result<Vec<NormalizedConversation>, ListError>)
    requires
        resolutions@.len() == dm_count(raws@),
    ensures
        match r {
            Result::Ok(out) => {
                &&& forall|k: int| 0 <= k < resolutions@.len() ==> resolutions@[k] is Ok
                &&& out@.map_values(|c: NormalizedConversation| c@) == normalized_views(
                    raws@,
                    resolution_names(resolutions@),
                )
                &&& forall|k: int| 0 <= k < out@.len() ==> (#[trigger] out@[k]).well_formed()
            },
            Result::Err(e) => exists|k: int|
                {
                    &&& 0 <= k < resolutions@.len()
                    &&& #[trigger] resolutions@[k] is Err
                    &&& (forall|j: int| 0 <= j < k ==> resolutions@[j] is Ok)
                    &&& e == resolutions@[k]->Err_0
                },
        },
{
    let ghost raws0 = raws@;
    let ghost res0 = resolutions@;
    let mut raws_left = raws;
    let mut res_left = resolutions;
    let mut out: Vec<NormalizedConversation> = Vec::new();
    let total = raws_left.len();
    let mut i: usize = 0;
    proof {
        assert(raws_left@ =~= raws0.skip(0));
        assert(raws0.take(0) =~= Seq::<RawConversation>::empty());
        assert(res_left@ =~= res0.skip(0));
        assert(out@.map_values(|c: NormalizedConversation| c@) =~= normalized_views(
            raws0.take(0),
            resolution_names(res0),
        ));
    }
    while raws_left.len() > 0
        invariant
            total == raws0.len(),
            i <= raws0.len(),
            raws_left@ == raws0.skip(i as int),
            res0.len() == dm_count(raws0),
            dm_count(raws0.take(i as int)) <= res0.len(),
            res_left@ == res0.skip(dm_count(raws0.take(i as int)) as int),
            forall|j: int| 0 <= j < dm_count(raws0.take(i as int)) ==> res0[j] is Ok,
            out@.map_values(|c: NormalizedConversation| c@) == normalized_views(
                raws0.take(i as int),
                resolution_names(res0),
            ),
            forall|k: int| 0 <= k < out@.len() ==> (#[trigger] out@[k]).well_formed(),
        decreases raws_left@.len(),
    {
        let ghost d = dm_count(raws0.take(i as int)) as int;
        let raw = raws_left.remove(0);
        proof {
            assert(raw == raws0[i as int]);
            assert(raws_left@ =~= raws0.skip(i + 1));
            lemma_dm_count_take_step(raws0, i as int);
        }
        let is_dm = match user_to_resolve(&raw) {
            Some(_) => true,
            None => false,
        };
        let record = if is_dm {
            proof {
                lemma_dm_count_bound(raws0, i as int);
                assert(res0.skip(d)[0] == res0[d]);
                assert(res0.skip(d).drop_first() =~= res0.skip(d + 1));
            }
            let resolution = res_left.remove(0);
            match resolution {
                Ok(display_name) => normalize_direct_message(raw, display_name),
                Err(e) => {
                    proof {
                        assert(0 <= d < res0.len());
                        assert(res0[d] is Err);
                        assert(e == res0[d]->Err_0);
                        assert(forall|j: int| 0 <= j < d ==> res0[j] is Ok);
                        assert(exists|k: int|
                            {
                                &&& 0 <= k < res0.len()
                                &&& #[trigger] res0[k] is Err
                                &&& (forall|j: int| 0 <= j < k ==> res0[j] is Ok)
                                &&& e == res0[k]->Err_0
                            });
                    }
                    return Err(e);
                },
            }
        } else {
            normalize_channel(raw)
        };
        let ghost prior = out@;
        out.push(record);
        proof {
            let f = |c: NormalizedConversation| c@;
            assert(out@.map_values(f) =~= prior.map_values(f).push(record@));
            assert(out@.map_values(f) =~= normalized_views(
                raws0.take(i + 1),
                resolution_names(res0),
            )) by {
                assert forall|k: int| 0 <= k < i implies raws0.take(i + 1)[k] == raws0.take(
                    i as int,
                )[k] && raws0.take(i + 1).take(k) =~= raws0.take(i as int).take(k) by {}
            }
        }
        i = i + 1;
    }
    proof {
        assert(raws0.take(i as int) =~= raws0);
        assert forall|k: int| 0 <= k < res0.len() implies res0[k] is Ok by {}
    }
    Ok(out)
}

/// The user id the resolver is owed a lookup for: one per direct message,
/// none for the channel variants.
pub fn user_to_resolve(raw: &RawConversation) -> (r: Option<&String>)
    ensures
        match r {
            Option::Some(u) => raw is DirectMessage && u@ == raw.spec_user(),
            Option::None => !(raw is DirectMessage),
        },
{
    match raw {
        RawConversation::DirectMessage { user, .. } => Some(user),
        _ => None,
    }
}

} // verus!
