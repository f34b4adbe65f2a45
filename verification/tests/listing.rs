use tidy_slack::conversation::NormalizedConversation;
use tidy_slack::conversation::Page;
use tidy_slack::conversation::RawConversation;
use tidy_slack::error::ListError;
use tidy_slack::normalize::decode_mpdm_name;
use tidy_slack::normalize::has_mpdm_prefix;
use tidy_slack::normalize::normalize_all;
use tidy_slack::normalize::normalize_channel;
use tidy_slack::normalize::normalize_direct_message;
use tidy_slack::normalize::user_to_resolve;
use tidy_slack::paginate::Paginator;
use tidy_slack::pipeline::filter_conversations;
use tidy_slack::pipeline::finalize;
use tidy_slack::response::decode_page_outcome;
use tidy_slack::response::decode_user_outcome;
use tidy_slack::response::LookupUser;
use tidy_slack::sort::sort_conversations;
use tidy_slack::text::join_strings;
use tidy_slack::sort::sort_names;

fn public_channel(id: &str, name: &str) -> RawConversation {
    RawConversation::PublicChannel {
        id: id.to_string(),
        name: name.to_string(),
        created: 0,
        is_archived: false,
    }
}

fn private_channel(id: &str, name: &str) -> RawConversation {
    RawConversation::PrivateChannel {
        id: id.to_string(),
        name: name.to_string(),
        created: 0,
        is_archived: false,
    }
}

fn direct_message(id: &str, user: &str, deleted: bool) -> RawConversation {
    RawConversation::DirectMessage {
        id: id.to_string(),
        created: 0,
        is_archived: false,
        user: user.to_string(),
        is_user_deleted: deleted,
    }
}

fn page(channels: Vec<RawConversation>, next_cursor: &str) -> Page {
    Page { channels, next_cursor: next_cursor.to_string() }
}

fn record(id: &str, marker: char, names: &[&str]) -> NormalizedConversation {
    NormalizedConversation {
        id: id.to_string(),
        type_marker: marker,
        names: names.iter().map(|n| n.to_string()).collect(),
        is_archived: false,
        is_deleted: false,
    }
}

#[test]
fn pagination_fetches_each_page_once_until_empty_cursor() {
    let mut paginator = Paginator::new();
    let mut requested: Vec<String> = Vec::new();

    requested.push(paginator.next_cursor().clone());
    assert!(!paginator.done());
    paginator.absorb_page(page(vec![public_channel("C1", "one")], "c1"));
    assert!(!paginator.done());

    requested.push(paginator.next_cursor().clone());
    paginator.absorb_page(page(vec![public_channel("C2", "two")], "c2"));
    assert!(!paginator.done());

    requested.push(paginator.next_cursor().clone());
    paginator.absorb_page(page(vec![public_channel("C3", "three")], ""));
    assert!(paginator.done());

    assert_eq!(requested, vec!["".to_string(), "c1".to_string(), "c2".to_string()]);
    // exactly three requests, no cursor twice
    assert_eq!(requested.len(), 3);
    assert!(requested[0] != requested[1] && requested[1] != requested[2]);

    let records = paginator.into_records();
    let ids: Vec<&str> = records
        .iter()
        .map(|r| match r {
            RawConversation::PublicChannel { id, .. } => id.as_str(),
            _ => panic!("unexpected variant"),
        })
        .collect();
    assert_eq!(ids, vec!["C1", "C2", "C3"]);
}

#[test]
fn pagination_single_page_run() {
    let mut paginator = Paginator::new();
    assert_eq!(paginator.next_cursor().as_str(), "");
    paginator.absorb_page(page(vec![], ""));
    assert!(paginator.done());
    assert!(paginator.into_records().is_empty());
}

#[test]
fn marker_for_public_channel() {
    let out = normalize_channel(public_channel("C1", "general"));
    assert_eq!(out.type_marker, '#');
    assert_eq!(out.names, vec!["general".to_string()]);
    assert!(!out.is_deleted);
}

#[test]
fn marker_for_private_channel() {
    let out = normalize_channel(private_channel("G1", "secret"));
    assert_eq!(out.type_marker, '!');
    assert_eq!(out.names, vec!["secret".to_string()]);
    assert!(!out.is_deleted);
}

#[test]
fn marker_for_multi_person_dm() {
    let out = normalize_channel(private_channel("G2", "mpdm-amy--bob-1"));
    assert_eq!(out.type_marker, '&');
    assert_eq!(out.names, vec!["amy".to_string(), "bob".to_string()]);
    assert!(!out.is_deleted);
}

#[test]
fn marker_for_direct_message() {
    let out = normalize_direct_message(direct_message("D1", "U1", false), "pat".to_string());
    assert_eq!(out.type_marker, '@');
    assert_eq!(out.names, vec!["pat".to_string()]);
    assert!(!out.is_deleted);
}

#[test]
fn direct_message_keeps_deleted_flag() {
    let out = normalize_direct_message(direct_message("D2", "U2", true), "gone".to_string());
    assert_eq!(out.type_marker, '@');
    assert!(out.is_deleted);
}

#[test]
fn normalization_keeps_the_archived_flag() {
    let raw = RawConversation::PublicChannel {
        id: "C9".to_string(),
        name: "old-times".to_string(),
        created: 7,
        is_archived: true,
    };
    let out = normalize_channel(raw);
    assert!(out.is_archived);
    let dm = RawConversation::DirectMessage {
        id: "D9".to_string(),
        created: 7,
        is_archived: true,
        user: "U9".to_string(),
        is_user_deleted: false,
    };
    let out = normalize_direct_message(dm, "pat".to_string());
    assert!(out.is_archived);
}

#[test]
fn mpdm_prefix_is_the_only_trigger() {
    assert!(has_mpdm_prefix("mpdm-a--b-1"));
    assert!(has_mpdm_prefix("mpdm-"));
    assert!(!has_mpdm_prefix("mpdm"));
    assert!(!has_mpdm_prefix("general"));
    assert!(!has_mpdm_prefix("xmpdm-a--b-1"));
}

#[test]
fn mpdm_decoding_round_trips() {
    let members = decode_mpdm_name("mpdm-alice--bob--carol-1");
    assert_eq!(
        members,
        vec!["alice".to_string(), "bob".to_string(), "carol".to_string()]
    );
}

#[test]
fn mpdm_decoding_single_member() {
    assert_eq!(decode_mpdm_name("mpdm-solo-1"), vec!["solo".to_string()]);
}

#[test]
fn mpdm_decoding_without_suffix_separator() {
    // no '-' after the prefix: nothing is discarded
    assert_eq!(decode_mpdm_name("mpdm-solo"), vec!["solo".to_string()]);
}

#[test]
fn user_lookup_owed_only_for_direct_messages() {
    assert!(user_to_resolve(&public_channel("C1", "general")).is_none());
    assert!(user_to_resolve(&private_channel("G1", "secret")).is_none());
    assert_eq!(
        user_to_resolve(&direct_message("D1", "U42", false)).map(|u| u.as_str()),
        Some("U42")
    );
}

#[test]
fn normalize_all_resolves_direct_messages_in_order() {
    let raws = vec![
        public_channel("C1", "general"),
        direct_message("D1", "U1", false),
        direct_message("D2", "U2", true),
    ];
    let resolutions = vec![Ok("pat".to_string()), Ok("kim".to_string())];
    let out = normalize_all(raws, resolutions).unwrap();
    assert_eq!(out.len(), 3);
    assert_eq!(out[0].names, vec!["general".to_string()]);
    assert_eq!(out[1].names, vec!["pat".to_string()]);
    assert!(!out[1].is_deleted);
    assert_eq!(out[2].names, vec!["kim".to_string()]);
    assert!(out[2].is_deleted);
}

#[test]
fn failed_user_lookup_aborts_the_whole_listing() {
    let raws = vec![
        public_channel("C1", "general"),
        direct_message("D1", "U1", false),
        direct_message("D2", "U2", false),
    ];
    let resolutions = vec![
        Err(ListError::ApiError { code: "user_not_found".to_string() }),
        Ok("kim".to_string()),
    ];
    match normalize_all(raws, resolutions) {
        Err(ListError::ApiError { code }) => assert_eq!(code, "user_not_found"),
        _ => panic!("the lookup failure must abort the listing"),
    }
}

#[test]
fn page_decode_prefers_the_success_shape() {
    let p = page(vec![public_channel("C1", "general")], "tok");
    match decode_page_outcome(Some(p), Some("ignored".to_string())) {
        Ok(page) => {
            assert_eq!(page.next_cursor, "tok");
            assert_eq!(page.channels.len(), 1);
        },
        Err(_) => panic!("a matched success shape must win"),
    }
}

#[test]
fn page_decode_falls_back_to_the_error_shape() {
    match decode_page_outcome(None, Some("invalid_auth".to_string())) {
        Err(ListError::ApiError { code }) => assert_eq!(code, "invalid_auth"),
        _ => panic!("a matched error shape must carry the platform code"),
    }
}

#[test]
fn page_decode_reports_schema_drift() {
    assert!(matches!(decode_page_outcome(None, None), Err(ListError::DecodeError)));
}

#[test]
fn user_decode_names_active_and_deleted_accounts() {
    let active = decode_user_outcome(Some(LookupUser::Active { name: "pat".to_string() }), None);
    assert_eq!(active.unwrap(), "pat");
    let deleted = decode_user_outcome(Some(LookupUser::Deleted { name: "kim".to_string() }), None);
    assert_eq!(deleted.unwrap(), "kim");
}

#[test]
fn user_decode_error_paths() {
    match decode_user_outcome(None, Some("user_not_found".to_string())) {
        Err(ListError::ApiError { code }) => assert_eq!(code, "user_not_found"),
        _ => panic!("a matched error shape must carry the platform code"),
    }
    assert!(matches!(decode_user_outcome(None, None), Err(ListError::DecodeError)));
}

#[test]
fn api_code_is_exposed_for_rendering() {
    let err = ListError::ApiError { code: "ratelimited".to_string() };
    assert_eq!(err.api_code().map(|c| c.as_str()), Some("ratelimited"));
    assert!(ListError::TransportError.api_code().is_none());
    assert!(ListError::ConfigError.api_code().is_none());
    assert!(ListError::DecodeError.api_code().is_none());
}

#[test]
fn type_sets_join_with_commas() {
    let types = vec!["public_channel".to_string(), "private_channel".to_string(), "im".to_string()];
    assert_eq!(join_strings(&types, ","), "public_channel,private_channel,im");
    assert_eq!(join_strings(&vec!["im".to_string()], ","), "im");
    assert_eq!(join_strings(&vec![], ","), "");
}

#[test]
fn filter_keeps_matching_names_only() {
    let records = vec![record("C1", '#', &["engineering"]), record("C2", '#', &["random"])];
    let out = filter_conversations(records, "eng");
    assert_eq!(out.len(), 1);
    assert_eq!(out[0].id, "C1");
}

#[test]
fn filter_with_empty_substring_keeps_everything() {
    let records = vec![record("C1", '#', &["engineering"]), record("C2", '#', &["random"])];
    let out = filter_conversations(records, "");
    assert_eq!(out.len(), 2);
    assert_eq!(out[0].id, "C1");
    assert_eq!(out[1].id, "C2");
}

#[test]
fn filter_matches_any_name_of_a_record() {
    let records = vec![record("G1", '&', &["random", "engineering"])];
    let out = filter_conversations(records, "eng");
    assert_eq!(out.len(), 1);
}

#[test]
fn name_sort_is_idempotent() {
    let once = sort_names(vec!["a".to_string(), "b".to_string(), "c".to_string()]);
    let twice = sort_names(once.clone());
    assert_eq!(once, twice);
}

#[test]
fn name_sort_orders_by_code_points() {
    let out = sort_names(vec!["bob".to_string(), "amy".to_string(), "carol".to_string()]);
    assert_eq!(out, vec!["amy".to_string(), "bob".to_string(), "carol".to_string()]);
}

#[test]
fn records_group_by_marker_then_by_name() {
    let records = vec![
        record("1", '@', &["zed"]),
        record("2", '#', &["beta"]),
        record("3", '!', &["gamma"]),
        record("4", '@', &["amy"]),
        record("5", '#', &["alpha"]),
    ];
    let out = sort_conversations(records);
    let keys: Vec<(char, &str)> =
        out.iter().map(|c| (c.type_marker, c.names[0].as_str())).collect();
    assert_eq!(
        keys,
        vec![('!', "gamma"), ('#', "alpha"), ('#', "beta"), ('@', "amy"), ('@', "zed")]
    );
}

#[test]
fn end_to_end_two_pages_no_resolver() {
    let mut paginator = Paginator::new();
    assert_eq!(paginator.next_cursor().as_str(), "");
    paginator.absorb_page(page(vec![public_channel("C1", "general")], "tok1"));
    assert!(!paginator.done());
    assert_eq!(paginator.next_cursor().as_str(), "tok1");
    paginator.absorb_page(page(vec![private_channel("C2", "mpdm-amy--bob-1")], ""));
    assert!(paginator.done());

    let raws = paginator.into_records();
    // no direct message: the resolver is never owed a call
    assert!(raws.iter().all(|r| user_to_resolve(r).is_none()));

    let normalized = normalize_all(raws, vec![]).unwrap();
    let out = finalize(normalized, "");
    assert_eq!(out.len(), 2);
    assert_eq!(out[0].id, "C1");
    assert_eq!(out[0].type_marker, '#');
    assert_eq!(out[0].names, vec!["general".to_string()]);
    assert_eq!(out[1].id, "C2");
    assert_eq!(out[1].type_marker, '&');
    assert_eq!(out[1].names, vec!["amy".to_string(), "bob".to_string()]);
}

#[test]
fn finalize_sorts_names_inside_each_record() {
    let records = vec![record("G1", '&', &["carol", "amy", "bob"])];
    let out = finalize(records, "");
    assert_eq!(
        out[0].names,
        vec!["amy".to_string(), "bob".to_string(), "carol".to_string()]
    );
}

#[test]
fn finalize_filters_then_sorts() {
    let records = vec![
        record("1", '@', &["zeng"]),
        record("2", '#', &["beng"]),
        record("3", '!', &["plain"]),
        record("4", '#', &["aeng"]),
    ];
    let out = finalize(records, "eng");
    let keys: Vec<(char, &str)> =
        out.iter().map(|c| (c.type_marker, c.names[0].as_str())).collect();
    assert_eq!(keys, vec![('#', "aeng"), ('#', "beng"), ('@', "zeng")]);
}
