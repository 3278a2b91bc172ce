use chrono::{DateTime, Utc};
use website::api::{
    api_blocked, api_stats, api_updates, page_fits, BlockedListResponse, BlockedQuery, UpdatesQuery,
};
use website::blocklist::{refresh_blocklist_state, BlocklistState};
use website::entries::{collect_blocked_entries, BlockedEntry, BlockedEntryKind};

fn strings(texts: &[&str]) -> Vec<String> {
    texts.iter().map(|s| s.to_string()).collect()
}

fn at(seconds: i64) -> Option<DateTime<Utc>> {
    DateTime::from_timestamp(seconds, 0)
}

fn ids(list: &[BlockedEntry]) -> Vec<&str> {
    list.iter().map(|e| e.id.as_str()).collect()
}

fn state_with(domains: &[&str], subnets: &[&str]) -> BlocklistState<DateTime<Utc>> {
    let mut state = BlocklistState::default();
    refresh_blocklist_state(&mut state, strings(domains), strings(subnets), at(10));
    state
}

fn listing(
    state: &BlocklistState<DateTime<Utc>>,
    page: Option<usize>,
    limit: Option<usize>,
    kind: Option<&str>,
    query: Option<&str>,
) -> BlockedListResponse<DateTime<Utc>> {
    let params = Some(BlockedQuery {
        page,
        limit,
        kind: kind.map(str::to_string),
        query: query.map(str::to_string),
    });
    assert!(page_fits(&params));
    api_blocked(params, state)
}

#[test]
fn entries_are_domains_then_subnets_in_order() {
    let list = collect_blocked_entries(
        strings(&["b.org", "a.org", "Z.org"]),
        strings(&["10.0.0.0/8", "1.1.1.0/24"]),
    );
    assert_eq!(
        ids(&list),
        ["domain:Z.org", "domain:a.org", "domain:b.org", "subnet:1.1.1.0/24", "subnet:10.0.0.0/8"]
    );
    assert_eq!(list[0].kind, BlockedEntryKind::Domain);
    assert_eq!(list[0].value, "Z.org");
    assert_eq!(list[0].source, "ru_blacklist");
    assert_eq!(list[4].kind, BlockedEntryKind::Subnet);
    assert_eq!(list[4].value, "10.0.0.0/8");
    assert_eq!(list[4].source, "ru_blacklist");
}

#[test]
fn entries_do_not_depend_on_arrival_order() {
    let one = collect_blocked_entries(strings(&["c", "a", "b", "a"]), strings(&["2", "1"]));
    let other = collect_blocked_entries(strings(&["a", "b", "a", "c"]), strings(&["1", "2"]));
    assert_eq!(ids(&one), ids(&other));
    assert_eq!(
        ids(&one),
        ["domain:a", "domain:a", "domain:b", "domain:c", "subnet:1", "subnet:2"]
    );
}

#[test]
fn same_value_of_both_kinds_has_two_ids() {
    let list = collect_blocked_entries(strings(&["x"]), strings(&["x"]));
    assert_eq!(ids(&list), ["domain:x", "subnet:x"]);
}

#[test]
fn nothing_is_listed_before_the_first_refresh() {
    let state: BlocklistState<DateTime<Utc>> = BlocklistState::default();
    let stats = api_stats(&state);
    assert_eq!(stats.total_entries, 0);
    assert_eq!(stats.total_domains, 0);
    assert_eq!(stats.total_subnets, 0);
    assert_eq!(stats.total_new, 0);
    assert_eq!(stats.last_refresh, None);
    assert_eq!(stats.previous_refresh, None);
    let page = api_blocked(None, &state);
    assert_eq!((page.page, page.limit, page.total, page.total_pages), (1, 50, 0, 0));
    assert!(page.items.is_empty());
}

#[test]
fn first_refresh_has_no_news() {
    let state = state_with(&["a", "b"], &["1"]);
    let updates = api_updates(None, &state);
    assert_eq!(updates.total_new, 0);
    assert!(updates.items.is_empty());
    assert_eq!(updates.last_refresh, at(10));
    assert_eq!(updates.previous_refresh, None);
}

#[test]
fn later_refreshes_report_what_was_not_listed() {
    let mut state = state_with(&["a", "b"], &["1"]);
    refresh_blocklist_state(&mut state, strings(&["c", "b"]), strings(&["1", "b"]), at(20));
    let updates = api_updates(None, &state);
    assert_eq!(ids(&updates.items), ["domain:c", "subnet:b"]);
    assert_eq!(updates.total_new, 2);
    assert_eq!(updates.last_refresh, at(20));
    assert_eq!(updates.previous_refresh, at(10));
    let stats = api_stats(&state);
    assert_eq!(stats.total_entries, 4);
    assert_eq!(stats.total_domains, 2);
    assert_eq!(stats.total_subnets, 2);
    assert_eq!(stats.total_new, 2);
    assert_eq!(stats.last_refresh, at(20));
    assert_eq!(stats.previous_refresh, at(10));
}

#[test]
fn same_list_again_has_no_news() {
    let mut state = state_with(&["a", "b"], &["1"]);
    refresh_blocklist_state(&mut state, strings(&["b", "a"]), strings(&["1"]), None);
    let stats = api_stats(&state);
    assert_eq!(stats.total_new, 0);
    assert_eq!(stats.total_entries, 3);
    assert_eq!(stats.last_refresh, None);
    assert_eq!(stats.previous_refresh, at(10));
}

#[test]
fn what_left_and_came_back_is_new_again() {
    let mut state = state_with(&["a"], &[]);
    refresh_blocklist_state(&mut state, strings(&[]), strings(&[]), at(20));
    assert_eq!(api_stats(&state).total_new, 0);
    refresh_blocklist_state(&mut state, strings(&["a"]), strings(&[]), at(30));
    assert_eq!(ids(&api_updates(None, &state).items), ["domain:a"]);
}

#[test]
fn refresh_after_an_empty_first_one_reports_everything() {
    let mut state = state_with(&[], &[]);
    refresh_blocklist_state(&mut state, strings(&["a"]), strings(&["1"]), at(20));
    assert_eq!(api_stats(&state).total_new, 2);
}

#[test]
fn served_state_depends_on_the_last_two_refreshes() {
    let mut one = state_with(&["x"], &["7"]);
    let mut other = BlocklistState::default();
    for state in [&mut one, &mut other] {
        refresh_blocklist_state(state, strings(&["a"]), strings(&[]), at(20));
        refresh_blocklist_state(state, strings(&["a", "b"]), strings(&[]), at(30));
    }
    assert_eq!(ids(&api_updates(None, &one).items), ids(&api_updates(None, &other).items));
    assert_eq!(ids(&api_updates(None, &one).items), ["domain:b"]);
    assert_eq!(api_stats(&one).previous_refresh, at(20));
    assert_eq!(api_stats(&other).previous_refresh, at(20));
}

#[test]
fn updates_are_limited() {
    let many: Vec<String> = (0..700).map(|n| format!("{n:03}")).collect();
    let mut state = state_with(&[], &[]);
    refresh_blocklist_state(&mut state, many, Vec::new(), at(20));
    let limited = |limit: Option<usize>| api_updates(Some(UpdatesQuery { limit }), &state);
    assert_eq!(api_updates(None, &state).items.len(), 100);
    assert_eq!(limited(None).items.len(), 100);
    assert_eq!(limited(Some(0)).items.len(), 1);
    assert_eq!(limited(Some(3)).items.len(), 3);
    assert_eq!(limited(Some(500)).items.len(), 500);
    assert_eq!(limited(Some(501)).items.len(), 500);
    assert_eq!(limited(Some(3)).total_new, 700);
    assert_eq!(ids(&limited(Some(2)).items), ["domain:000", "domain:001"]);
}

#[test]
fn listing_is_paged() {
    let state = state_with(&["a", "b", "c", "d", "e"], &["1", "2"]);
    let first = listing(&state, None, Some(3), None, None);
    assert_eq!((first.page, first.limit, first.total, first.total_pages), (1, 3, 7, 3));
    assert_eq!((first.total_domains, first.total_subnets), (5, 2));
    assert_eq!(first.last_refresh, at(10));
    assert_eq!(ids(&first.items), ["domain:a", "domain:b", "domain:c"]);
    let last = listing(&state, Some(3), Some(3), None, None);
    assert_eq!(ids(&last.items), ["subnet:2"]);
    let past = listing(&state, Some(4), Some(3), None, None);
    assert_eq!((past.page, past.total, past.total_pages), (4, 7, 3));
    assert!(past.items.is_empty());
    assert_eq!(listing(&state, Some(0), Some(3), None, None).page, 1);
    assert_eq!(listing(&state, None, Some(7), None, None).total_pages, 1);
    assert_eq!(listing(&state, None, Some(6), None, None).total_pages, 2);
}

#[test]
fn pages_show_every_match_once() {
    let names: Vec<String> = (0..47).map(|n| format!("site{n:02}.org")).collect();
    let mut state = BlocklistState::default();
    refresh_blocklist_state(&mut state, names, strings(&["10.0.0.0/8"]), at(10));
    for limit in [1, 2, 5, 24, 47, 48, 500] {
        let first = listing(&state, Some(1), Some(limit), None, Some("1"));
        let mut walked = Vec::new();
        for page in 1..=first.total_pages {
            let shown = listing(&state, Some(page), Some(limit), None, Some("1"));
            assert!(!shown.items.is_empty());
            assert!(page == first.total_pages || shown.items.len() == limit);
            walked.extend(shown.items.into_iter().map(|e| e.id));
        }
        let all = listing(&state, Some(1), Some(500), None, Some("1"));
        assert_eq!(walked, ids(&all.items));
        assert_eq!(walked.len(), first.total);
    }
}

#[test]
fn limits_are_kept_between_1_and_500() {
    let state = state_with(&["a", "b"], &[]);
    assert_eq!(listing(&state, None, None, None, None).limit, 50);
    assert_eq!(listing(&state, None, Some(0), None, None).limit, 1);
    assert_eq!(listing(&state, None, Some(500), None, None).limit, 500);
    assert_eq!(listing(&state, None, Some(501), None, None).limit, 500);
    assert_eq!(listing(&state, None, Some(0), None, None).total_pages, 2);
}

#[test]
fn kinds_are_told_by_their_names() {
    let state = state_with(&["a"], &["1", "2"]);
    for name in ["domain", " Domain ", "DOMAIN"] {
        let shown = listing(&state, None, None, Some(name), None);
        assert_eq!(ids(&shown.items), ["domain:a"]);
        assert_eq!(shown.total, api_stats(&state).total_domains);
    }
    for name in ["subnet", "ip", "net", "\tIP\n", "Net"] {
        let shown = listing(&state, None, None, Some(name), None);
        assert_eq!(ids(&shown.items), ["subnet:1", "subnet:2"]);
        assert_eq!(shown.total, api_stats(&state).total_subnets);
    }
    for name in ["", "domains", "ipv4", "d omain"] {
        assert_eq!(listing(&state, None, None, Some(name), None).total, 3);
    }
}

#[test]
fn searches_ignore_case_and_padding() {
    let state = state_with(&["Example.COM", "sample.org", "пример.рф"], &["10.0.0.0/8"]);
    for query in ["example", "EXAMPLE", "  eXample ", "ple.c"] {
        assert_eq!(
            ids(&listing(&state, None, None, None, Some(query)).items),
            ["domain:Example.COM"]
        );
    }
    assert_eq!(listing(&state, None, None, None, Some("ample")).total, 2);
    assert_eq!(listing(&state, None, None, None, Some("пример")).total, 1);
    assert_eq!(listing(&state, None, None, None, Some("ПРИМЕР")).total, 0);
    assert_eq!(listing(&state, None, None, None, Some("domain:")).total, 0);
    assert_eq!(listing(&state, None, None, None, Some("  ")).total, 4);
    assert_eq!(listing(&state, None, None, None, Some("")).total, 4);
}

#[test]
fn kinds_split_a_search() {
    let state = state_with(&["1a", "b1", "c"], &["1", "2"]);
    let all = listing(&state, None, None, None, Some("1"));
    let mut split = listing(&state, None, None, Some("domain"), Some("1")).items;
    split.extend(listing(&state, None, None, Some("subnet"), Some("1")).items);
    assert_eq!(ids(&all.items), ids(&split));
    assert_eq!(ids(&all.items), ["domain:1a", "domain:b1", "subnet:1"]);
}

#[test]
fn answered_parameters_are_settled() {
    let state = state_with(&["a", "b", "c"], &[]);
    let first = listing(&state, Some(0), Some(0), None, None);
    let again = listing(&state, Some(first.page), Some(first.limit), None, None);
    assert_eq!(ids(&first.items), ids(&again.items));
    assert_eq!((again.page, again.limit), (first.page, first.limit));
}

#[test]
fn pages_that_cannot_be_addressed_do_not_fit() {
    let params = |page: Option<usize>, limit: Option<usize>| {
        Some(BlockedQuery { page, limit, ..BlockedQuery::default() })
    };
    assert!(page_fits(&None));
    assert!(page_fits(&params(None, None)));
    assert!(page_fits(&params(Some(usize::MAX), Some(1))));
    assert!(page_fits(&params(Some(usize::MAX / 500), Some(500))));
    assert!(!page_fits(&params(Some(usize::MAX), Some(2))));
    assert!(!page_fits(&params(Some(usize::MAX), None)));
    let state = state_with(&["a"], &[]);
    let far = listing(&state, Some(usize::MAX), Some(1), None, None);
    assert_eq!(far.page, usize::MAX);
    assert!(far.items.is_empty());
}
