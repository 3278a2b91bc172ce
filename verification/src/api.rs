//! The answers of the blocklist API: listing and searching, what is new, and the totals.
use vstd::arithmetic::div_mod::*;
use vstd::arithmetic::mul::*;
use vstd::prelude::*;
use vstd::seq_lib::*;

use crate::blocklist;
use crate::blocklist::BlocklistState;
use crate::entries;
use crate::entries::{BlockedEntry, BlockedEntryKind};
use crate::text;

verus! {

/// The parameters of a listing. What is not given takes its default.
#[derive(Debug)]
pub struct BlockedQuery {
    pub page: Option<usize>,
    pub limit: Option<usize>,
    pub kind: Option<String>,
    pub query: Option<String>,
}

/// The parameters of a listing, with the strings as sequences of characters.
pub struct QueryView {
    pub page: Option<usize>,
    pub limit: Option<usize>,
    pub kind: Option<Seq<char>>,
    pub query: Option<Seq<char>>,
}

/// What an optional string says.
pub open spec fn said(s: Option<String>) -> Option<Seq<char>> {
    match s {
        Some(s) => Some(s@),
        None => None,
    }
}

impl View for BlockedQuery {
    type V = QueryView;

    open spec fn view(&self) -> QueryView {
        QueryView {
            page: self.page,
            limit: self.limit,
            kind: said(self.kind),
            query: said(self.query),
        }
    }
}

impl QueryView {
    /// A listing without parameters.
    pub open spec fn unasked() -> Self {
        QueryView { page: None, limit: None, kind: None, query: None }
    }

    /// The page that is shown: the first one unless a later one is asked for.
    pub open spec fn page_number(self) -> nat {
        match self.page {
            Some(page) => if page >= 1 {
                page as nat
            } else {
                1
            },
            None => 1,
        }
    }

    /// How many entries a page has: 50, or what is asked for between 1 and 500.
    pub open spec fn page_size(self) -> nat {
        limited(self.limit, 50)
    }

    /// The position of the first match on the page.
    pub open spec fn start(self) -> nat {
        if self.page_number() == 1 {
            0
        } else {
            ((self.page_number() - 1) * self.page_size()) as nat
        }
    }

    /// The kind that is asked for, if a known one is named.
    pub open spec fn kind_wanted(self) -> Option<BlockedEntryKind> {
        match self.kind {
            Some(kind) => {
                let name = text::normalized(kind);
                if name == "domain"@ {
                    Some(BlockedEntryKind::Domain)
                } else if name == "subnet"@ || name == "ip"@ || name == "net"@ {
                    Some(BlockedEntryKind::Subnet)
                } else {
                    None
                }
            },
            None => None,
        }
    }

    /// The entry is of the kind that is asked for, and its value contains the query in any
    /// ASCII case.
    pub open spec fn selects(self, e: entries::EntryView) -> bool {
        &&& match self.kind_wanted() {
            Some(kind) => e.kind == kind,
            None => true,
        }
        &&& match self.query {
            Some(query) => text::normalized(query).len() == 0 || text::is_infix(
                text::normalized(query),
                text::lower(e.value),
            ),
            None => true,
        }
    }

    /// The entries that are asked for, in the order of the list.
    pub open spec fn matching(self, list: Seq<entries::EntryView>) -> Seq<entries::EntryView> {
        list.filter(|e: entries::EntryView| self.selects(e))
    }

    /// The matches on the page that is shown.
    pub open spec fn shown(self, list: Seq<entries::EntryView>) -> Seq<entries::EntryView> {
        window(self.matching(list), self.start(), self.page_size())
    }

    /// How many pages the matches take.
    pub open spec fn pages(self, list: Seq<entries::EntryView>) -> nat {
        page_count(self.matching(list).len(), self.page_size())
    }

    /// The same request for another page.
    pub open spec fn on_page(self, page: nat) -> Self {
        QueryView { page: Some(page as usize), ..self }
    }

    /// What the first `count` pages show, one page after the other.
    pub open spec fn walk(self, list: Seq<entries::EntryView>, count: nat) -> Seq<
        entries::EntryView,
    >
        decreases count,
    {
        if count == 0 {
            Seq::empty()
        } else {
            self.walk(list, (count - 1) as nat) + self.on_page(count).shown(list)
        }
    }
}

/// A limit between 1 and 500, with a default.
pub open spec fn limited(limit: Option<usize>, default_limit: nat) -> nat {
    match limit {
        Some(n) => if n < 1 {
            1
        } else if n > 500 {
            500
        } else {
            n as nat
        },
        None => default_limit,
    }
}

/// What the optional parameters ask for.
pub open spec fn asked(params: Option<BlockedQuery>) -> QueryView {
    match params {
        Some(params) => params@,
        None => QueryView::unasked(),
    }
}

/// At most `limit` elements of `s`, from position `start` on.
pub open spec fn window<A>(s: Seq<A>, start: nat, limit: nat) -> Seq<A> {
    if start >= s.len() {
        Seq::empty()
    } else if start + limit >= s.len() {
        s.skip(start as int)
    } else {
        s.subrange(start as int, (start + limit) as int)
    }
}

/// How many pages of `limit` entries hold `total` entries.
pub open spec fn page_count(total: nat, limit: nat) -> nat {
    (total + limit - 1) as nat / limit
}

/// The new entries that are answered to a request for what is new.
pub open spec fn news_shown(params: Option<UpdatesQuery>, news: Seq<entries::EntryView>) -> Seq<
    entries::EntryView,
> {
    window(
        news,
        0,
        limited(
            match params {
                Some(params) => params.limit,
                None => None,
            },
            100,
        ),
    )
}

/// One page of a listing. `T` is a point in time.
#[derive(Debug)]
pub struct BlockedListResponse<T> {
    pub page: usize,
    pub limit: usize,
    pub total: usize,
    pub total_pages: usize,
    pub total_domains: usize,
    pub total_subnets: usize,
    pub last_refresh: Option<T>,
    pub items: Vec<BlockedEntry>,
}

/// The parameters of a request for what is new.
#[derive(Debug)]
pub struct UpdatesQuery {
    pub limit: Option<usize>,
}

/// What the last refresh brought. `T` is a point in time.
#[derive(Debug)]
pub struct BlockedUpdatesResponse<T> {
    pub last_refresh: Option<T>,
    pub previous_refresh: Option<T>,
    pub total_new: usize,
    pub items: Vec<BlockedEntry>,
}

/// The totals of the blocklist. `T` is a point in time.
#[derive(Debug)]
pub struct BlockedStatsResponse<T> {
    pub last_refresh: Option<T>,
    pub previous_refresh: Option<T>,
    pub total_entries: usize,
    pub total_domains: usize,
    pub total_subnets: usize,
    pub total_new: usize,
}

/// The totals are those of the state.
pub open spec fn tells_totals<T>(
    r: BlockedStatsResponse<T>,
    state: blocklist::StateView<T>,
) -> bool {
    &&& r.last_refresh == state.last_refresh
    &&& r.previous_refresh == state.previous_refresh
    &&& r.total_entries == state.current_entries.len()
    &&& r.total_domains == state.total_domains
    &&& r.total_subnets == state.total_subnets
    &&& r.total_new == state.new_entries.len()
}

impl Default for BlockedQuery {
    fn default() -> (r: Self)
        ensures
            r@ == QueryView::unasked(),
    {
        BlockedQuery { page: None, limit: None, kind: None, query: None }
    }
}

impl Default for UpdatesQuery {
    fn default() -> (r: Self)
        ensures
            r.limit is None,
    {
        UpdatesQuery { limit: None }
    }
}

fn clamp_limit(limit: Option<usize>, default_limit: usize) -> (r: usize)
    ensures
        r == limited(limit, default_limit as nat),
{
    match limit {
        Some(n) => if n < 1 {
            1
        } else if n > 500 {
            500
        } else {
            n
        },
        None => default_limit,
    }
}

fn page_from(page: Option<usize>) -> (r: usize)
    ensures
        r == (QueryView { page, ..QueryView::unasked() }).page_number(),
{
    match page {
        Some(page) => if page >= 1 {
            page
        } else {
            1
        },
        None => 1,
    }
}

/// The page starts after the entries of the pages before it.
proof fn lemma_start(q: QueryView)
    ensures
        q.start() == (q.page_number() - 1) * q.page_size(),
{
    if q.page_number() == 1 {
        lemma_mul_basics_1(q.page_size() as int);
    } else {
        lemma_mul_nonnegative(q.page_number() - 1, q.page_size() as int);
    }
}

/// Whether the position of the first match on the page fits a `usize`, as `api_blocked` asks.
pub fn page_fits(params: &Option<BlockedQuery>) -> (r: bool)
    ensures
        r == (asked(*params).start() <= usize::MAX),
{
    match params {
        Some(params) => {
            let page: usize = page_from(params.page);
            let limit: usize = clamp_limit(params.limit, 50);
            let skipped: usize = page - 1;
            proof {
                lemma_start(params@);
            }
            skipped.checked_mul(limit).is_some()
        },
        None => true,
    }
}

fn kind_from(kind: &Option<String>) -> (r: Option<BlockedEntryKind>)
    ensures
        r == (QueryView { kind: said(*kind), ..QueryView::unasked() }).kind_wanted(),
{
    match kind {
        Some(kind) => {
            let name = text::normalize(kind.as_str());
            if text::spells(&name, "domain") {
                Some(BlockedEntryKind::Domain)
            } else if text::spells(&name, "subnet") || text::spells(&name, "ip") || text::spells(
                &name,
                "net",
            ) {
                Some(BlockedEntryKind::Subnet)
            } else {
                None
            }
        },
        None => None,
    }
}

/// The query in the form in which it is searched for; empty if there is none.
fn needle_from(query: &Option<String>) -> (r: Vec<char>)
    ensures
        r@ == match said(*query) {
            Some(query) => text::normalized(query),
            None => Seq::empty(),
        },
{
    match query {
        Some(query) => text::normalize(query.as_str()),
        None => Vec::new(),
    }
}

fn is_selected(
    kind: &Option<BlockedEntryKind>,
    needle: &Vec<char>,
    entry: &BlockedEntry,
    Ghost(q): Ghost<QueryView>,
) -> (r: bool)
    requires
        *kind == q.kind_wanted(),
        needle@ == match q.query {
            Some(query) => text::normalized(query),
            None => Seq::empty(),
        },
    ensures
        r == q.selects(entry@),
{
    let kind_fits = match kind {
        Some(kind) => entry.kind == *kind,
        None => true,
    };
    kind_fits && (needle.len() == 0 || text::contains(
        needle,
        &text::lower_chars(entry.value.as_str()),
    ))
}

fn count_pages(total: usize, limit: usize) -> (r: usize)
    requires
        limit > 0,
    ensures
        r == page_count(total as nat, limit as nat),
{
    if total == 0 {
        assert((limit - 1) / (limit as int) == 0) by {
            lemma_basic_div(limit - 1, limit as int);
        }
        0
    } else {
        proof {
            lemma_div_plus_one(total - 1, limit as int);
            lemma_div_is_ordered_by_denominator(total - 1, 1, limit as int);
        }
        (total - 1) / limit + 1
    }
}

/// One page of the entries that match the parameters.
pub fn api_blocked<T: Copy>(params: Option<BlockedQuery>, state: &BlocklistState<T>) -> (r:
    BlockedListResponse<T>)
    requires
        asked(params).start() <= usize::MAX,
    ensures
        r.page == asked(params).page_number(),
        r.limit == asked(params).page_size(),
        r.total == asked(params).matching(state@.current_entries).len(),
        r.total_pages == asked(params).pages(state@.current_entries),
        r.total_domains == state@.total_domains,
        r.total_subnets == state@.total_subnets,
        r.last_refresh == state@.last_refresh,
        entries::views(r.items@) == asked(params).shown(state@.current_entries),
        params matches Some(p) ==> p.limit matches Some(n) ==> 1 <= n <= 500 ==> r.limit == n,
        params matches Some(p) ==> p.page matches Some(n) ==> n >= 1 ==> r.page == n,
        r.items@.len() <= r.limit,
        params matches Some(p) ==> p.query matches Some(query) ==> forall|i: int|
            0 <= i < r.items@.len() ==> text::is_infix(
                text::normalized(query@),
                text::lower(#[trigger] r.items@[i].value@),
            ),
{
    let ghost q = asked(params);
    let params = match params {
        Some(params) => params,
        None => BlockedQuery::default(),
    };
    let page: usize = page_from(params.page);
    let limit: usize = clamp_limit(params.limit, 50);
    let kind = kind_from(&params.kind);
    let needle = needle_from(&params.query);
    proof {
        lemma_start(q);
    }
    let start: usize = (page - 1) * limit;
    let list = state.current_entries();
    let ghost all = state@.current_entries;
    let mut items: Vec<BlockedEntry> = Vec::new();
    let mut total: usize = 0;
    let mut i: usize = 0;
    proof {
        reveal(Seq::filter);
        assert(q.matching(all.take(0)).len() == 0);
        assert(entries::views(items@) =~= window(
            q.matching(all.take(0)),
            start as nat,
            limit as nat,
        ));
    }
    while i < list.len()
        invariant
            all == entries::views(list@),
            i <= list@.len(),
            total <= i,
            limit > 0,
            total == q.matching(all.take(i as int)).len(),
            kind == q.kind_wanted(),
            needle@ == match q.query {
                Some(query) => text::normalized(query),
                None => Seq::empty(),
            },
            entries::views(items@) == window(
                q.matching(all.take(i as int)),
                start as nat,
                limit as nat,
            ),
        decreases list@.len() - i,
    {
        let ghost items0 = items@;
        let ghost found = q.matching(all.take(i as int));
        proof {
            reveal(Seq::filter);
            assert(all.take(i + 1).drop_last() =~= all.take(i as int));
        }
        if is_selected(&kind, &needle, &list[i], Ghost(q)) {
            assert(q.matching(all.take(i + 1)) == found.push(all[i as int]));
            if start <= total && total - start < limit {
                items.push(list[i].clone());
                assert(entries::views(items@) =~= entries::views(items0).push(all[i as int]));
            }
            assert(entries::views(items@) =~= window(
                found.push(all[i as int]),
                start as nat,
                limit as nat,
            ));
            total = total + 1;
        }
        i = i + 1;
    }
    assert(all.take(list@.len() as int) =~= all);
    proof {
        assert(entries::views(items@).len() == items@.len());
        if q.query is Some {
            assert forall|k: int| 0 <= k < items@.len() implies text::is_infix(
                text::normalized(q.query->0),
                text::lower(#[trigger] items@[k].value@),
            ) by {
                assert(q.shown(all)[k] == items@[k]@);
                let at = law_listed_values_contain_the_query(q, all, k);
                let part = text::normalized(q.query->0);
                let whole = text::lower(items@[k].value@);
                assert(whole.subrange(at, at + part.len()) =~= part);
            }
        }
    }
    BlockedListResponse {
        page,
        limit,
        total,
        total_pages: count_pages(total, limit),
        total_domains: state.total_domains(),
        total_subnets: state.total_subnets(),
        last_refresh: state.last_refresh(),
        items,
    }
}

/// The first entries of `list`, at most `limit` of them.
fn first_entries(list: &Vec<BlockedEntry>, limit: usize) -> (r: Vec<BlockedEntry>)
    ensures
        entries::views(r@) == window(entries::views(list@), 0, limit as nat),
{
    let ghost all = entries::views(list@);
    let end: usize = if limit < list.len() {
        limit
    } else {
        list.len()
    };
    let mut r: Vec<BlockedEntry> = Vec::new();
    let mut i: usize = 0;
    assert(entries::views(r@) =~= all.take(0));
    while i < end
        invariant
            all == entries::views(list@),
            i <= end <= list@.len(),
            entries::views(r@) == all.take(i as int),
        decreases end - i,
    {
        let ghost r0 = r@;
        r.push(list[i].clone());
        assert(entries::views(r@) =~= entries::views(r0).push(all[i as int]));
        assert(all.take(i + 1) =~= all.take(i as int).push(all[i as int]));
        i = i + 1;
    }
    assert(entries::views(r@) =~= window(all, 0, limit as nat));
    r
}

/// What the last refresh brought: 100 entries, or as many as asked for between 1 and 500.
pub fn api_updates<T: Copy>(params: Option<UpdatesQuery>, state: &BlocklistState<T>) -> (r:
    BlockedUpdatesResponse<T>)
    ensures
        r.last_refresh == state@.last_refresh,
        r.previous_refresh == state@.previous_refresh,
        r.total_new == state@.new_entries.len(),
        entries::views(r.items@) == window(
            state@.new_entries,
            0,
            limited(
                match params {
                    Some(params) => params.limit,
                    None => None,
                },
                100,
            ),
        ),
        entries::views(r.items@) == news_shown(params, state@.new_entries),
        params matches Some(p) ==> p.limit matches Some(n) ==> 1 <= n <= 500 && n <= r.total_new
            ==> r.items@.len() == n,
{
    let params = match params {
        Some(params) => params,
        None => UpdatesQuery::default(),
    };
    let limit: usize = clamp_limit(params.limit, 100);
    let list = state.new_entries();
    assert(entries::views(list@).len() == list@.len());
    let items = first_entries(list, limit);
    assert(entries::views(items@).len() == items@.len());
    BlockedUpdatesResponse {
        last_refresh: state.last_refresh(),
        previous_refresh: state.previous_refresh(),
        total_new: list.len(),
        items,
    }
}

/// The totals of the blocklist.
pub fn api_stats<T: Copy>(state: &BlocklistState<T>) -> (r: BlockedStatsResponse<T>)
    ensures
        r.last_refresh == state@.last_refresh,
        r.previous_refresh == state@.previous_refresh,
        r.total_entries == state@.current_entries.len(),
        r.total_domains == state@.total_domains,
        r.total_subnets == state@.total_subnets,
        r.total_new == state@.new_entries.len(),
        r.total_entries == r.total_domains + r.total_subnets,
        r.total_new <= r.total_entries,
        tells_totals(r, state@),
{
    let current = state.current_entries();
    let new = state.new_entries();
    proof {
        assert(entries::views(current@).len() == current@.len());
        assert(entries::views(new@).len() == new@.len());
        blocklist::law_kinds_partition(state@.current_entries);
        blocklist::law_news_are_listed(state@);
    }
    BlockedStatsResponse {
        last_refresh: state.last_refresh(),
        previous_refresh: state.previous_refresh(),
        total_entries: current.len(),
        total_domains: state.total_domains(),
        total_subnets: state.total_subnets(),
        total_new: new.len(),
    }
}

/// `n` pages are enough for `total` entries, and one less is not.
proof fn lemma_page_count(total: nat, limit: nat)
    requires
        limit >= 1,
    ensures
        page_count(total, limit) * limit >= total,
        total > 0 ==> page_count(total, limit) >= 1 && (page_count(total, limit) - 1) * limit
            < total,
        total == 0 ==> page_count(total, limit) == 0,
        page_count(total, limit) <= total,
{
    let n = total + limit - 1;
    let c = page_count(total, limit);
    lemma_fundamental_div_mod(n, limit as int);
    assert(limit * c == c * limit) by {
        lemma_mul_is_commutative(limit as int, c as int);
    }
    assert((c - 1) * limit == c * limit - limit) by {
        lemma_mul_is_distributive_sub_other_way(limit as int, c as int, 1);
    }
    if total == 0 {
        lemma_basic_div(n, limit as int);
    } else {
        lemma_div_plus_one(total - 1, limit as int);
        lemma_div_pos_is_pos(total - 1, limit as int);
        lemma_div_is_ordered_by_denominator(total - 1, 1, limit as int);
    }
}

proof fn lemma_walk_is_prefix(q: QueryView, list: Seq<entries::EntryView>, count: nat)
    requires
        count <= usize::MAX,
    ensures
        q.walk(list, count) == if count * q.page_size() >= q.matching(list).len() {
            q.matching(list)
        } else {
            q.matching(list).take((count * q.page_size()) as int)
        },
    decreases count,
{
    let s = q.matching(list);
    let limit = q.page_size();
    if count == 0 {
        lemma_mul_basics_1(limit as int);
        assert(q.walk(list, count) =~= s.take(0));
        if s.len() == 0 {
            assert(s =~= Seq::empty());
        }
    } else {
        let before = (count - 1) as nat;
        lemma_walk_is_prefix(q, list, before);
        lemma_start(q.on_page(count));
        law_case_and_padding_do_not_matter(q, q.on_page(count), list);
        lemma_mul_is_distributive_add_other_way(limit as int, before as int, 1);
        assert(count * limit == before * limit + limit);
        let page = q.on_page(count).shown(list);
        assert(page == window(s, before * limit, limit));
        if before * limit >= s.len() {
            assert(s + page =~= s);
        } else if count * limit >= s.len() {
            assert(s.take((before * limit) as int) + page =~= s);
        } else {
            assert(s.take((before * limit) as int) + page =~= s.take((count * limit) as int));
        }
    }
}

/// Walking through the counted pages shows every match exactly once, in the order of the list.
pub proof fn law_pages_show_every_match_once(q: QueryView, list: Seq<entries::EntryView>)
    requires
        list.len() <= usize::MAX,
    ensures
        q.walk(list, q.pages(list)) == q.matching(list),
{
    list.lemma_filter_len(|e: entries::EntryView| q.selects(e));
    lemma_page_count(q.matching(list).len(), q.page_size());
    lemma_walk_is_prefix(q, list, q.pages(list));
}

/// A page shows entries exactly if it is among the counted pages, it is full if it is not the
/// last of them, and no page shows more than its size.
pub proof fn law_only_counted_pages_show_entries(q: QueryView, list: Seq<entries::EntryView>)
    ensures
        q.page_number() <= q.pages(list) <==> q.shown(list).len() > 0,
        q.page_number() < q.pages(list) ==> q.shown(list).len() == q.page_size(),
        q.shown(list).len() <= q.page_size(),
{
    let page = q.page_number();
    let limit = q.page_size();
    let count = q.pages(list);
    lemma_start(q);
    lemma_page_count(q.matching(list).len(), limit);
    if page > count {
        lemma_mul_inequality(count as int, page - 1, limit as int);
    } else {
        lemma_mul_inequality(page - 1, count - 1, limit as int);
        if page < count {
            lemma_mul_inequality(page as int, count - 1, limit as int);
            lemma_mul_is_distributive_sub_other_way(limit as int, page as int, 1);
        }
    }
}

/// Every counted page can be asked for: it starts inside the list, so its start fits.
pub proof fn law_counted_pages_can_be_asked_for(q: QueryView, list: Seq<entries::EntryView>)
    requires
        q.page_number() <= q.pages(list),
    ensures
        q.start() < list.len(),
{
    law_only_counted_pages_show_entries(q, list);
    list.lemma_filter_len(|e: entries::EntryView| q.selects(e));
}

/// Only the normalized forms of the kind and the query matter: white space around them and the
/// ASCII case of their letters change nothing.
pub proof fn law_case_and_padding_do_not_matter(
    q: QueryView,
    other: QueryView,
    list: Seq<entries::EntryView>,
)
    requires
        q.kind is Some <==> other.kind is Some,
        q.kind is Some ==> text::normalized(q.kind->0) == text::normalized(other.kind->0),
        q.query is Some <==> other.query is Some,
        q.query is Some ==> text::normalized(q.query->0) == text::normalized(other.query->0),
    ensures
        q.matching(list) == other.matching(list),
{
    let p = |e: entries::EntryView| q.selects(e);
    let o = |e: entries::EntryView| other.selects(e);
    assert(p =~= o);
}

/// A listing without kind and query shows the whole blocklist.
pub proof fn law_unfiltered_listing_is_whole(q: QueryView, list: Seq<entries::EntryView>)
    requires
        q.kind_wanted() is None,
        q.query is Some ==> text::normalized(q.query->0).len() == 0,
    ensures
        q.matching(list) == list,
    decreases list.len(),
{
    reveal(Seq::filter);
    if list.len() > 0 {
        law_unfiltered_listing_is_whole(q, list.drop_last());
        assert(q.matching(list) =~= list);
    }
}

/// Every match is in the blocklist and is selected, and every selected entry is a match.
pub proof fn law_matches_are_the_selected(
    q: QueryView,
    list: Seq<entries::EntryView>,
    e: entries::EntryView,
)
    ensures
        q.matching(list).contains(e) <==> list.contains(e) && q.selects(e),
{
    let p = |e: entries::EntryView| q.selects(e);
    if q.matching(list).contains(e) {
        let i = choose|i: int| 0 <= i < list.filter(p).len() && list.filter(p)[i] == e;
        list.lemma_filter_pred(p, i);
        list.lemma_filter_contains_rev(p, e);
    }
    if list.contains(e) && q.selects(e) {
        let i = choose|i: int| 0 <= i < list.len() && list[i] == e;
        list.lemma_filter_contains(p, i);
    }
}

/// Asked by kind alone, the total is the total of that kind.
pub proof fn law_totals_are_those_of_the_kinds<T>(
    state: blocklist::StateView<T>,
    q: QueryView,
)
    requires
        state.well_formed(),
        q.query is None,
    ensures
        q.kind_wanted() == Some(BlockedEntryKind::Domain) ==> q.matching(
            state.current_entries,
        ).len() == state.total_domains,
        q.kind_wanted() == Some(BlockedEntryKind::Subnet) ==> q.matching(
            state.current_entries,
        ).len() == state.total_subnets,
        q.kind_wanted() is None ==> q.matching(state.current_entries).len() == state.total_domains
            + state.total_subnets,
{
    let p = |e: entries::EntryView| q.selects(e);
    if q.kind_wanted() is None {
        law_unfiltered_listing_is_whole(q, state.current_entries);
        blocklist::law_kinds_partition(state.current_entries);
    } else {
        let kind = q.kind_wanted()->0;
        assert(p =~= (|e: entries::EntryView| e.kind == kind));
    }
}

proof fn lemma_kinds_split_matches(q: QueryView, of: QueryView, list: Seq<entries::EntryView>)
    requires
        q.kind_wanted() is None,
        of.kind_wanted() is Some,
        of.query == q.query,
        forall|i: int| 0 <= i < list.len() ==> (#[trigger] list[i]).kind == of.kind_wanted()->0,
    ensures
        of.matching(list) == q.matching(list),
    decreases list.len(),
{
    reveal(Seq::filter);
    if list.len() > 0 {
        let rest = list.drop_last();
        assert forall|i: int| 0 <= i < rest.len() implies (#[trigger] rest[i]).kind
            == of.kind_wanted()->0 by {
            assert(rest[i] == list[i]);
        }
        lemma_kinds_split_matches(q, of, rest);
        assert(list[list.len() - 1].kind == of.kind_wanted()->0);
    }
}

proof fn lemma_other_kind_never_matches(of: QueryView, list: Seq<entries::EntryView>)
    requires
        of.kind_wanted() is Some,
        forall|i: int| 0 <= i < list.len() ==> (#[trigger] list[i]).kind != of.kind_wanted()->0,
    ensures
        of.matching(list) == Seq::<entries::EntryView>::empty(),
    decreases list.len(),
{
    reveal(Seq::filter);
    if list.len() > 0 {
        let rest = list.drop_last();
        assert forall|i: int| 0 <= i < rest.len() implies (#[trigger] rest[i]).kind
            != of.kind_wanted()->0 by {
            assert(rest[i] == list[i]);
        }
        lemma_other_kind_never_matches(of, rest);
        assert(list[list.len() - 1].kind != of.kind_wanted()->0);
    } else {
        assert(of.matching(list) =~= Seq::empty());
    }
}

/// A search over all kinds finds the domains that a search among the domains finds, followed by
/// the subnets that a search among the subnets finds.
pub proof fn law_kinds_split_a_search(
    q: QueryView,
    domains_only: QueryView,
    subnets_only: QueryView,
    domains: Seq<Seq<char>>,
    subnets: Seq<Seq<char>>,
)
    requires
        q.kind_wanted() is None,
        domains_only.kind_wanted() == Some(BlockedEntryKind::Domain),
        subnets_only.kind_wanted() == Some(BlockedEntryKind::Subnet),
        domains_only.query == q.query,
        subnets_only.query == q.query,
    ensures
        q.matching(entries::blocklist(domains, subnets)) == domains_only.matching(
            entries::blocklist(domains, subnets),
        ) + subnets_only.matching(entries::blocklist(domains, subnets)),
{
    let up = text::text_order();
    let d = entries::entries_of(BlockedEntryKind::Domain, domains.sort_by(up));
    let s = entries::entries_of(BlockedEntryKind::Subnet, subnets.sort_by(up));
    let p = |e: entries::EntryView| q.selects(e);
    let pd = |e: entries::EntryView| domains_only.selects(e);
    let ps = |e: entries::EntryView| subnets_only.selects(e);
    Seq::filter_distributes_over_add(d, s, p);
    Seq::filter_distributes_over_add(d, s, pd);
    Seq::filter_distributes_over_add(d, s, ps);
    lemma_kinds_split_matches(q, domains_only, d);
    lemma_kinds_split_matches(q, subnets_only, s);
    lemma_other_kind_never_matches(domains_only, s);
    lemma_other_kind_never_matches(subnets_only, d);
    let list = entries::blocklist(domains, subnets);
    assert(domains_only.matching(list) =~= q.matching(d));
    assert(subnets_only.matching(list) =~= q.matching(s));
}

/// Searching for any part of a value finds its entry, in whatever ASCII case and with whatever
/// white space around it the part is written.
pub proof fn law_search_finds_parts(
    q: QueryView,
    e: entries::EntryView,
    left: Seq<char>,
    part: Seq<char>,
    right: Seq<char>,
    written: Seq<char>,
)
    requires
        q.kind_wanted() is None || q.kind_wanted() == Some(e.kind),
        text::is_infix(part, e.value),
        text::all_white_space(left),
        text::all_white_space(right),
        text::lower(written) == text::lower(part),
        q.query == Some(left + written + right),
    ensures
        q.selects(e),
{
    text::law_normalized_part_is_found(part, e.value);
    text::law_normalized_ignores_case_and_padding(left, written, right, part);
}

/// A page has between 1 and 500 entries to show and pages are counted from 1, whatever is asked
/// for; and a request for the page and the size that are answered is answered alike.
pub proof fn law_parameters_are_settled(q: QueryView, list: Seq<entries::EntryView>)
    ensures
        1 <= q.page_size() <= 500,
        q.page_number() >= 1,
        (QueryView {
            page: Some(q.page_number() as usize),
            limit: Some(q.page_size() as usize),
            ..q
        }).shown(list) == q.shown(list),
{
    let settled = QueryView {
        page: Some(q.page_number() as usize),
        limit: Some(q.page_size() as usize),
        ..q
    };
    law_case_and_padding_do_not_matter(settled, q, list);
}

/// What is given as a parameter is what is asked for, and without parameters nothing is.
pub proof fn law_parameters_are_taken_over(params: BlockedQuery)
    ensures
        asked(Some(params)).page == params.page,
        asked(Some(params)).limit == params.limit,
        params.kind is None ==> asked(Some(params)).kind is None,
        params.kind matches Some(kind) ==> asked(Some(params)).kind == Some(kind@),
        params.query is None ==> asked(Some(params)).query is None,
        params.query matches Some(query) ==> asked(Some(params)).query == Some(query@),
        asked(None).page is None,
        asked(None).limit is None,
        asked(None).kind is None,
        asked(None).query is None,
{
}

/// A limit between 1 and 500 is used as it is asked for. A smaller one becomes 1, a larger one
/// 500, and without one a page has 50 entries.
pub proof fn law_limit_is_used_as_asked(q: QueryView)
    ensures
        q.limit matches Some(n) ==> 1 <= n <= 500 ==> q.page_size() == n,
        q.limit matches Some(n) ==> n == 0 ==> q.page_size() == 1,
        q.limit matches Some(n) ==> n > 500 ==> q.page_size() == 500,
        q.limit is None ==> q.page_size() == 50,
{
}

/// A page from 1 on is the one that is shown; the page 0, or none, stands for the first.
pub proof fn law_page_is_the_one_asked_for(q: QueryView)
    ensures
        q.page matches Some(p) ==> p >= 1 ==> q.page_number() == p,
        q.page matches Some(p) ==> p == 0 ==> q.page_number() == 1,
        q.page is None ==> q.page_number() == 1,
{
}

/// A page skips the matches of the pages before it and shows those that follow, one for one, as
/// many as it can hold.
pub proof fn law_page_shows_the_matches_at_its_positions(
    q: QueryView,
    list: Seq<entries::EntryView>,
)
    ensures
        q.start() == (q.page_number() - 1) * q.page_size(),
        forall|i: int|
            0 <= i < q.shown(list).len() ==> #[trigger] q.shown(list)[i] == q.matching(
                list,
            )[(q.page_number() - 1) * q.page_size() + i],
        q.matching(list).len() <= (q.page_number() - 1) * q.page_size() ==> q.shown(list).len()
            == 0,
        (q.page_number() - 1) * q.page_size() <= q.matching(list).len() <= (q.page_number() - 1)
            * q.page_size() + q.page_size() ==> q.shown(list).len() == q.matching(list).len() - (
        q.page_number() - 1) * q.page_size(),
        q.matching(list).len() >= (q.page_number() - 1) * q.page_size() + q.page_size()
            ==> q.shown(list).len() == q.page_size(),
{
    lemma_start(q);
}

/// The counted pages are enough for the matches, and one page less is not.
pub proof fn law_pages_are_just_enough(q: QueryView, list: Seq<entries::EntryView>)
    ensures
        q.matching(list).len() <= q.pages(list) * q.page_size(),
        q.pages(list) > 0 ==> (q.pages(list) - 1) * q.page_size() < q.matching(list).len(),
{
    lemma_page_count(q.matching(list).len(), q.page_size());
}

/// With a limit between 1 and 500, as many of the new entries are answered as it says, or all of
/// them if there are fewer; a smaller limit answers one and a larger one 500, and without a limit
/// it is 100. They are the first ones, in their order.
pub proof fn law_updates_are_the_first_news(
    params: Option<UpdatesQuery>,
    news: Seq<entries::EntryView>,
)
    ensures
        forall|i: int|
            0 <= i < news_shown(params, news).len() ==> #[trigger] news_shown(params, news)[i]
                == news[i],
        news_shown(params, news).len() <= news.len(),
        ({
            let shown = news_shown(params, news).len();
            match params {
                Some(UpdatesQuery { limit: Some(n) }) => {
                    &&& 1 <= n <= 500 && n <= news.len() ==> shown == n
                    &&& 1 <= n <= 500 && news.len() <= n ==> shown == news.len()
                    &&& n > 500 && news.len() >= 500 ==> shown == 500
                    &&& n > 500 && news.len() <= 500 ==> shown == news.len()
                    &&& n == 0 && news.len() >= 1 ==> shown == 1
                },
                _ => {
                    &&& news.len() >= 100 ==> shown == 100
                    &&& news.len() <= 100 ==> shown == news.len()
                },
            }
        }),
{
}

/// Every entry on a page has the trimmed, lower-cased query in its lower-cased value, as
/// consecutive characters from some position on.
pub proof fn law_listed_values_contain_the_query(
    q: QueryView,
    list: Seq<entries::EntryView>,
    i: int,
) -> (at: int)
    requires
        q.query is Some,
        0 <= i < q.shown(list).len(),
    ensures
        0 <= at,
        at + text::normalized(q.query->0).len() <= text::lower(q.shown(list)[i].value).len(),
        forall|k: int|
            0 <= k < text::normalized(q.query->0).len() ==> text::lower(
                q.shown(list)[i].value,
            )[at + k] == #[trigger] text::normalized(q.query->0)[k],
{
    let e = q.shown(list)[i];
    let found = q.matching(list);
    assert(found.contains(e)) by {
        assert(found[q.start() + i] == e);
    }
    law_matches_are_the_selected(q, list, e);
    let part = text::normalized(q.query->0);
    let whole = text::lower(e.value);
    if part.len() == 0 {
        0
    } else {
        let at = choose|at: int|
            0 <= at <= whole.len() - part.len() && #[trigger] whole.subrange(at, at + part.len())
                == part;
        assert forall|k: int| 0 <= k < part.len() implies whole[at + k] == #[trigger] part[k] by {
            assert(whole.subrange(at, at + part.len())[k] == part[k]);
        }
        at
    }
}

/// An entry of the list matches exactly if it is a domain where domains are asked for by name,
/// a subnet where subnets are (as `subnet`, `ip` or `net`), and has the query somewhere in its
/// value. Any other name of a kind excludes nothing.
pub proof fn law_matches_in_plain_terms(
    q: QueryView,
    list: Seq<entries::EntryView>,
    e: entries::EntryView,
)
    ensures
        q.matching(list).contains(e) <==> {
            &&& list.contains(e)
            &&& q.kind matches Some(kind) ==> {
                let name = text::normalized(kind);
                &&& name == seq!['d', 'o', 'm', 'a', 'i', 'n'] ==> e.kind
                    == BlockedEntryKind::Domain
                &&& name == seq!['s', 'u', 'b', 'n', 'e', 't'] || name == seq!['i', 'p'] || name
                    == seq!['n', 'e', 't'] ==> e.kind == BlockedEntryKind::Subnet
            }
            &&& q.query matches Some(query) ==> exists|before: Seq<char>, after: Seq<char>|
                text::lower(e.value) == #[trigger] (before + text::normalized(query) + after)
        },
{
    reveal_strlit("domain");
    reveal_strlit("subnet");
    reveal_strlit("ip");
    reveal_strlit("net");
    assert("domain"@ =~= seq!['d', 'o', 'm', 'a', 'i', 'n']);
    assert("subnet"@ =~= seq!['s', 'u', 'b', 'n', 'e', 't']);
    assert("ip"@ =~= seq!['i', 'p']);
    assert("net"@ =~= seq!['n', 'e', 't']);
    assert("domain"@[0] == 'd' && "subnet"@[0] == 's' && "ip"@[0] == 'i' && "net"@[0] == 'n');
    law_matches_are_the_selected(q, list, e);
    if q.query is Some {
        let part = text::normalized(q.query->0);
        let whole = text::lower(e.value);
        text::law_infix_is_a_run(part, whole);
        if part.len() == 0 {
            assert(whole.subrange(0, 0int + part.len()) =~= part);
        }
    }
}

/// Entries are picked one by one: the matches in two lists, one after the other, are the matches
/// in the one followed by those in the other, and an entry matches once or not at all.
pub proof fn law_matches_go_entry_by_entry(
    q: QueryView,
    first: Seq<entries::EntryView>,
    second: Seq<entries::EntryView>,
    e: entries::EntryView,
)
    ensures
        q.matching(first + second) == q.matching(first) + q.matching(second),
        q.matching(seq![e]) == seq![e] || q.matching(seq![e]).len() == 0,
        q.matching(Seq::empty()).len() == 0,
{
    let p = |e: entries::EntryView| q.selects(e);
    Seq::filter_distributes_over_add(first, second, p);
    reveal(Seq::filter);
    let none = Seq::<entries::EntryView>::empty();
    assert(none.filter(p) =~= none);
    assert(seq![e].drop_last() =~= none);
    assert(seq![e].filter(p) =~= if q.selects(e) {
        seq![e]
    } else {
        none
    });
}

/// After a refresh the totals are the numbers of domains and subnets that came and of their sum,
/// and the times are those of this refresh and of the one before. If the list is the one that the
/// refresh before found, nothing is new.
pub proof fn law_totals_are_what_came<T>(
    r: BlockedStatsResponse<T>,
    before: blocklist::StateView<T>,
    domains: Seq<Seq<char>>,
    subnets: Seq<Seq<char>>,
    time: Option<T>,
)
    requires
        before.well_formed(),
        tells_totals(r, before.refreshed(entries::blocklist(domains, subnets), time)),
    ensures
        r.total_domains == domains.len(),
        r.total_subnets == subnets.len(),
        r.total_entries == domains.len() + subnets.len(),
        r.last_refresh == time,
        r.previous_refresh == before.last_refresh,
        !before.initialized ==> r.total_new == 0,
        before.initialized ==> r.total_new == entries::blocklist(domains, subnets).filter(
            |e: entries::EntryView| !before.current_entries.contains(e),
        ).len(),
        before.current_entries == entries::blocklist(domains, subnets) ==> r.total_new == 0,
{
    let list = entries::blocklist(domains, subnets);
    entries::law_blocklist_in_plain_terms(domains, subnets);
    blocklist::law_refresh_takes_the_list_over(before, domains, subnets, time);
    if before.initialized {
        blocklist::law_news_are_what_was_not_listed(before, domains, subnets, time);
    }
    if before.current_entries == list {
        blocklist::law_same_list_has_no_news(before, time);
    }
}

} // verus!
