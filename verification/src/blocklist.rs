//! The blocklist as of the last refresh, and what the refresh brought.
use vstd::hash_set::*;
use vstd::prelude::*;
use vstd::relations::*;
use vstd::seq_lib::*;

use crate::entries;
use crate::entries::{BlockedEntry, BlockedEntryKind};
use crate::sorting;

verus! {

/// The blocklist that is served. `T` is a point in time.
pub struct BlocklistState<T> {
    initialized: bool,
    current_ids: StringHashSet,
    current_entries: Vec<BlockedEntry>,
    new_entries: Vec<BlockedEntry>,
    last_refresh: Option<T>,
    previous_refresh: Option<T>,
    total_domains: usize,
    total_subnets: usize,
}

/// The blocklist as a mathematical value.
#[verifier::ext_equal]
pub struct StateView<T> {
    pub initialized: bool,
    pub current_ids: Set<Seq<char>>,
    pub current_entries: Seq<entries::EntryView>,
    pub new_entries: Seq<entries::EntryView>,
    pub last_refresh: Option<T>,
    pub previous_refresh: Option<T>,
    pub total_domains: nat,
    pub total_subnets: nat,
}

impl<T> View for BlocklistState<T> {
    type V = StateView<T>;

    closed spec fn view(&self) -> StateView<T> {
        StateView {
            initialized: self.initialized,
            current_ids: self.current_ids@,
            current_entries: entries::views(self.current_entries@),
            new_entries: entries::views(self.new_entries@),
            last_refresh: self.last_refresh,
            previous_refresh: self.previous_refresh,
            total_domains: self.total_domains as nat,
            total_subnets: self.total_subnets as nat,
        }
    }
}

/// Every entry of the list is the entry for its kind and value.
pub open spec fn made(list: Seq<entries::EntryView>) -> bool {
    forall|i: int|
        0 <= i < list.len() ==> (#[trigger] list[i]) == entries::entry_of(
            list[i].kind,
            list[i].value,
        )
}

/// The identifiers of a list of entries.
pub open spec fn ids_of(list: Seq<entries::EntryView>) -> Set<Seq<char>> {
    list.map_values(|e: entries::EntryView| e.id).to_set()
}

/// The entries of one kind, in the order of the list.
pub open spec fn of_kind(list: Seq<entries::EntryView>, kind: BlockedEntryKind) -> Seq<
    entries::EntryView,
> {
    list.filter(|e: entries::EntryView| e.kind == kind)
}

/// The entries whose identifier is not among `known`, in the order of the list.
pub open spec fn unknown_to(list: Seq<entries::EntryView>, known: Set<Seq<char>>) -> Seq<
    entries::EntryView,
> {
    list.filter(|e: entries::EntryView| !known.contains(e.id))
}

impl<T> StateView<T> {
    /// What holds of every state: the entries are those of blocked values, in the order of the
    /// list; the identifiers and the totals are those of the entries; the new entries are the
    /// current entries that some earlier list did not have; and before the first refresh there
    /// is nothing.
    pub open spec fn well_formed(self) -> bool {
        &&& made(self.current_entries)
        &&& self.current_ids == ids_of(self.current_entries)
        &&& self.total_domains == of_kind(self.current_entries, BlockedEntryKind::Domain).len()
        &&& self.total_subnets == of_kind(self.current_entries, BlockedEntryKind::Subnet).len()
        &&& sorted_by(self.current_entries, entries::entry_order())
        &&& exists|known: Set<Seq<char>>|
            self.new_entries == #[trigger] unknown_to(self.current_entries, known)
        &&& !self.initialized ==> self == Self::initial()
    }

    /// The state before the first refresh.
    pub open spec fn initial() -> Self {
        StateView {
            initialized: false,
            current_ids: Set::empty(),
            current_entries: Seq::empty(),
            new_entries: Seq::empty(),
            last_refresh: None,
            previous_refresh: None,
            total_domains: 0,
            total_subnets: 0,
        }
    }

    /// The state after a refresh that found `list` at `time`. An entry is new if the state
    /// before did not have its identifier; the first refresh has no new entries.
    pub open spec fn refreshed(self, list: Seq<entries::EntryView>, time: Option<T>) -> Self {
        StateView {
            initialized: true,
            current_ids: ids_of(list),
            current_entries: list,
            new_entries: if self.initialized {
                unknown_to(list, self.current_ids)
            } else {
                Seq::empty()
            },
            last_refresh: time,
            previous_refresh: self.last_refresh,
            total_domains: of_kind(list, BlockedEntryKind::Domain).len(),
            total_subnets: of_kind(list, BlockedEntryKind::Subnet).len(),
        }
    }
}

impl<T> BlocklistState<T> {
    #[verifier::type_invariant]
    spec fn valid(self) -> bool {
        self@.well_formed()
    }
}

proof fn lemma_nothing_unknown_to_own_ids(list: Seq<entries::EntryView>)
    ensures
        unknown_to(list, ids_of(list)).len() == 0,
{
    let p = |e: entries::EntryView| !ids_of(list).contains(e.id);
    let ids = list.map_values(|e: entries::EntryView| e.id);
    if list.filter(p).len() > 0 {
        let e = list.filter(p)[0];
        assert(list.filter(p).contains(e));
        list.lemma_filter_pred(p, 0);
        list.lemma_filter_contains_rev(p, e);
        let i = choose|i: int| 0 <= i < list.len() && list[i] == e;
        assert(ids[i] == e.id);
        assert(ids.contains(e.id));
    }
}

proof fn lemma_initial_well_formed<T>()
    ensures
        StateView::<T>::initial().well_formed(),
{
    reveal(Seq::filter);
    let s = StateView::<T>::initial();
    assert(s.current_entries.map_values(|e: entries::EntryView| e.id) =~= Seq::empty());
    assert(ids_of(s.current_entries) =~= Set::empty());
    assert(s.new_entries =~= unknown_to(s.current_entries, Set::empty()));
}

impl<T> Default for BlocklistState<T> {
    fn default() -> (r: Self)
        ensures
            r@ == StateView::<T>::initial(),
    {
        proof {
            lemma_initial_well_formed::<T>();
        }
        let current_ids = StringHashSet::new();
        let current_entries: Vec<BlockedEntry> = Vec::new();
        let new_entries: Vec<BlockedEntry> = Vec::new();
        assert(entries::views(current_entries@) =~= Seq::empty());
        assert(entries::views(new_entries@) =~= Seq::empty());
        BlocklistState {
            initialized: false,
            current_ids,
            current_entries,
            new_entries,
            last_refresh: None,
            previous_refresh: None,
            total_domains: 0,
            total_subnets: 0,
        }
    }
}

/// The identifiers of `list`.
fn collect_ids(list: &Vec<BlockedEntry>) -> (r: StringHashSet)
    ensures
        r@ == ids_of(entries::views(list@)),
{
    let mut r = StringHashSet::new();
    let ghost ids = entries::views(list@).map_values(|e: entries::EntryView| e.id);
    assert(ids.take(0).to_set() =~= Set::empty());
    let mut i: usize = 0;
    while i < list.len()
        invariant
            i <= list@.len(),
            ids == entries::views(list@).map_values(|e: entries::EntryView| e.id),
            r@ == ids.take(i as int).to_set(),
        decreases list@.len() - i,
    {
        r.insert(list[i].id.clone());
        proof {
            assert(ids.take(i + 1) =~= ids.take(i as int).push(ids[i as int]));
            ids.take(i as int).lemma_push_to_set_commute(ids[i as int]);
        }
        i = i + 1;
    }
    assert(ids.take(list@.len() as int) =~= ids);
    r
}

/// How many entries of `list` are domains.
fn count_domains(list: &Vec<BlockedEntry>) -> (r: usize)
    ensures
        r == of_kind(entries::views(list@), BlockedEntryKind::Domain).len(),
        r <= list@.len(),
{
    reveal(Seq::filter);
    let ghost all = entries::views(list@);
    let mut r: usize = 0;
    let mut i: usize = 0;
    while i < list.len()
        invariant
            all == entries::views(list@),
            r <= i <= list@.len(),
            r == of_kind(all.take(i as int), BlockedEntryKind::Domain).len(),
        decreases list@.len() - i,
    {
        reveal(Seq::filter);
        assert(all.take(i + 1).drop_last() =~= all.take(i as int));
        if matches!(list[i].kind, BlockedEntryKind::Domain) {
            r = r + 1;
        }
        i = i + 1;
    }
    assert(all.take(list@.len() as int) =~= all);
    r
}

/// The entries of `list` whose identifier is not among `known`.
fn pick_unknown(list: &Vec<BlockedEntry>, known: &StringHashSet) -> (r: Vec<BlockedEntry>)
    ensures
        entries::views(r@) == unknown_to(entries::views(list@), known@),
{
    reveal(Seq::filter);
    let ghost all = entries::views(list@);
    let mut r: Vec<BlockedEntry> = Vec::new();
    assert(entries::views(r@) =~= unknown_to(all.take(0), known@));
    let mut i: usize = 0;
    while i < list.len()
        invariant
            all == entries::views(list@),
            i <= list@.len(),
            entries::views(r@) == unknown_to(all.take(i as int), known@),
        decreases list@.len() - i,
    {
        reveal(Seq::filter);
        let ghost picked = r@;
        assert(all.take(i + 1).drop_last() =~= all.take(i as int));
        if !known.contains(list[i].id.as_str()) {
            r.push(list[i].clone());
            assert(entries::views(r@) =~= entries::views(picked).push(all[i as int]));
        }
        i = i + 1;
    }
    assert(all.take(list@.len() as int) =~= all);
    r
}

/// Every entry is a domain or a subnet.
pub proof fn law_kinds_partition(list: Seq<entries::EntryView>)
    ensures
        list.len() == of_kind(list, BlockedEntryKind::Domain).len() + of_kind(
            list,
            BlockedEntryKind::Subnet,
        ).len(),
    decreases list.len(),
{
    reveal(Seq::filter);
    if list.len() > 0 {
        law_kinds_partition(list.drop_last());
    }
}

/// A refresh leads to a well-formed state, whatever the state before and whatever is blocked.
pub proof fn law_refresh_is_well_formed<T>(
    before: StateView<T>,
    domains: Seq<Seq<char>>,
    subnets: Seq<Seq<char>>,
    time: Option<T>,
)
    ensures
        before.refreshed(entries::blocklist(domains, subnets), time).well_formed(),
{
    let list = entries::blocklist(domains, subnets);
    entries::law_blocklist_sorts_what_came(domains, subnets);
    if !before.initialized {
        lemma_nothing_unknown_to_own_ids(list);
        assert(before.refreshed(list, time).new_entries =~= unknown_to(list, ids_of(list)));
    }
}

/// Takes a new blocklist over: lists the domains and subnets, and finds what is new among them.
pub fn refresh_blocklist_state<T: Copy>(
    state: &mut BlocklistState<T>,
    domains: Vec<String>,
    subnets: Vec<String>,
    current_refresh: Option<T>,
)
    ensures
        final(state)@ == old(state)@.refreshed(
            entries::blocklist(sorting::texts(domains@), sorting::texts(subnets@)),
            current_refresh,
        ),
{
    let ghost before = state@;
    let ghost list = entries::blocklist(sorting::texts(domains@), sorting::texts(subnets@));
    proof {
        law_refresh_is_well_formed(
            before,
            sorting::texts(domains@),
            sorting::texts(subnets@),
            current_refresh,
        );
        law_kinds_partition(list);
    }
    let current_entries = entries::collect_blocked_entries(domains, subnets);
    let current_ids = collect_ids(&current_entries);
    let total_domains: usize = count_domains(&current_entries);
    let total_subnets: usize = current_entries.len() - total_domains;
    let new_entries: Vec<BlockedEntry> = if state.initialized {
        pick_unknown(&current_entries, &state.current_ids)
    } else {
        Vec::new()
    };
    assert(entries::views(new_entries@) =~= before.refreshed(list, current_refresh).new_entries);
    let next = BlocklistState {
        initialized: true,
        current_ids,
        current_entries,
        new_entries,
        last_refresh: current_refresh,
        previous_refresh: state.last_refresh,
        total_domains,
        total_subnets,
    };
    assert(next@ =~= before.refreshed(list, current_refresh));
    *state = next;
}

impl<T> BlocklistState<T> {
    /// The entries that are blocked now.
    pub fn current_entries(&self) -> (r: &Vec<BlockedEntry>)
        ensures
            entries::views(r@) == self@.current_entries,
            self@.well_formed(),
    {
        proof {
            use_type_invariant(self);
        }
        &self.current_entries
    }

    /// The entries that the last refresh brought.
    pub fn new_entries(&self) -> (r: &Vec<BlockedEntry>)
        ensures
            entries::views(r@) == self@.new_entries,
            self@.well_formed(),
    {
        proof {
            use_type_invariant(self);
        }
        &self.new_entries
    }

    /// How many domains are blocked.
    pub fn total_domains(&self) -> (r: usize)
        ensures
            r == self@.total_domains,
    {
        self.total_domains
    }

    /// How many subnets are blocked.
    pub fn total_subnets(&self) -> (r: usize)
        ensures
            r == self@.total_subnets,
    {
        self.total_subnets
    }
}

impl<T: Copy> BlocklistState<T> {
    /// When the blocklist was last refreshed.
    pub fn last_refresh(&self) -> (r: Option<T>)
        ensures
            r == self@.last_refresh,
    {
        self.last_refresh
    }

    /// When the blocklist was refreshed before that.
    pub fn previous_refresh(&self) -> (r: Option<T>)
        ensures
            r == self@.previous_refresh,
    {
        self.previous_refresh
    }
}

proof fn lemma_ids_tell_membership(list: Seq<entries::EntryView>, e: entries::EntryView)
    requires
        made(list),
        e == entries::entry_of(e.kind, e.value),
    ensures
        ids_of(list).contains(e.id) <==> list.contains(e),
{
    let ids = list.map_values(|x: entries::EntryView| x.id);
    if ids_of(list).contains(e.id) {
        assert(ids.contains(e.id));
        let i = choose|i: int| 0 <= i < ids.len() && ids[i] == e.id;
        assert(list[i].id == e.id);
        entries::law_ids_tell_entries_apart(list[i].kind, list[i].value, e.kind, e.value);
        assert(list[i] == e);
    }
    if list.contains(e) {
        let i = choose|i: int| 0 <= i < list.len() && list[i] == e;
        assert(ids[i] == e.id);
        assert(ids.contains(e.id));
    }
}

proof fn lemma_filters_agree(
    list: Seq<entries::EntryView>,
    p: spec_fn(entries::EntryView) -> bool,
    q: spec_fn(entries::EntryView) -> bool,
)
    requires
        forall|i: int| 0 <= i < list.len() ==> p(#[trigger] list[i]) == q(list[i]),
    ensures
        list.filter(p) == list.filter(q),
    decreases list.len(),
{
    reveal(Seq::filter);
    if list.len() > 0 {
        let rest = list.drop_last();
        assert forall|i: int| 0 <= i < rest.len() implies p(#[trigger] rest[i]) == q(rest[i]) by {
            assert(rest[i] == list[i]);
        }
        lemma_filters_agree(rest, p, q);
    }
}

/// After a refresh of a state that had a blocklist, the new entries are the listed entries that
/// the blocklist before did not hold, in the order of the list.
pub proof fn law_news_are_what_was_not_listed<T>(
    before: StateView<T>,
    domains: Seq<Seq<char>>,
    subnets: Seq<Seq<char>>,
    time: Option<T>,
)
    requires
        before.well_formed(),
        before.initialized,
    ensures
        before.refreshed(entries::blocklist(domains, subnets), time).new_entries
            == entries::blocklist(domains, subnets).filter(
            |e: entries::EntryView| !before.current_entries.contains(e),
        ),
{
    let list = entries::blocklist(domains, subnets);
    let p = |e: entries::EntryView| !before.current_ids.contains(e.id);
    let q = |e: entries::EntryView| !before.current_entries.contains(e);
    assert forall|i: int| 0 <= i < list.len() implies p(#[trigger] list[i]) == q(list[i]) by {
        lemma_ids_tell_membership(before.current_entries, list[i]);
    }
    lemma_filters_agree(list, p, q);
}

/// Every new entry is a current entry, and there are no more new entries than current ones.
pub proof fn law_news_are_listed<T>(state: StateView<T>)
    requires
        state.well_formed(),
    ensures
        forall|e: entries::EntryView|
            state.new_entries.contains(e) ==> #[trigger] state.current_entries.contains(e),
        state.new_entries.len() <= state.current_entries.len(),
{
    let list = state.current_entries;
    let known = choose|known: Set<Seq<char>>|
        state.new_entries == #[trigger] unknown_to(list, known);
    let p = |e: entries::EntryView| !known.contains(e.id);
    assert(state.new_entries == list.filter(p));
    list.lemma_filter_len(p);
    assert forall|e: entries::EntryView| state.new_entries.contains(e) implies #[trigger]
        list.contains(e) by {
        list.lemma_filter_contains_rev(p, e);
    }
}

/// A state that was never refreshed lists nothing, counts nothing and knows no times.
pub proof fn law_nothing_before_the_first_refresh<T>(state: StateView<T>)
    requires
        state.well_formed(),
        !state.initialized,
    ensures
        state.current_entries.len() == 0,
        state.new_entries.len() == 0,
        forall|id: Seq<char>| !(#[trigger] state.current_ids.contains(id)),
        state.last_refresh is None,
        state.previous_refresh is None,
        state.total_domains == 0,
        state.total_subnets == 0,
        !StateView::<T>::initial().initialized,
{
}

/// The first refresh reports nothing as new.
pub proof fn law_first_refresh_has_no_news<T>(list: Seq<entries::EntryView>, time: Option<T>)
    ensures
        StateView::<T>::initial().refreshed(list, time).new_entries.len() == 0,
{
}

/// A refresh that finds what was already listed reports nothing as new.
pub proof fn law_same_list_has_no_news<T>(before: StateView<T>, time: Option<T>)
    requires
        before.well_formed(),
    ensures
        before.refreshed(before.current_entries, time).new_entries.len() == 0,
{
    lemma_nothing_unknown_to_own_ids(before.current_entries);
}

/// What is served depends on the last two refreshes alone: on the two lists and the two times.
pub proof fn law_two_refreshes_decide<T>(
    state: StateView<T>,
    other: StateView<T>,
    first: Seq<entries::EntryView>,
    first_time: Option<T>,
    second: Seq<entries::EntryView>,
    second_time: Option<T>,
)
    ensures
        state.refreshed(first, first_time).refreshed(second, second_time) == other.refreshed(
            first,
            first_time,
        ).refreshed(second, second_time),
        state.refreshed(first, first_time).refreshed(second, second_time).previous_refresh
            == first_time,
        state.refreshed(first, first_time).refreshed(second, second_time).last_refresh
            == second_time,
{
}

/// After a refresh the blocklist is the one that was found, with its identifiers and no others,
/// as many domains and subnets are counted as came, and the time of the refresh before is kept.
pub proof fn law_refresh_takes_the_list_over<T>(
    before: StateView<T>,
    domains: Seq<Seq<char>>,
    subnets: Seq<Seq<char>>,
    time: Option<T>,
)
    ensures
        ({
            let list = entries::blocklist(domains, subnets);
            let after = before.refreshed(list, time);
            &&& after.initialized
            &&& after.current_entries == list
            &&& after.total_domains == domains.len()
            &&& after.total_subnets == subnets.len()
            &&& after.last_refresh == time
            &&& after.previous_refresh == before.last_refresh
            &&& forall|i: int|
                0 <= i < list.len() ==> after.current_ids.contains((#[trigger] list[i]).id)
            &&& forall|id: Seq<char>| #[trigger]
                after.current_ids.contains(id) ==> exists|i: int|
                    0 <= i < list.len() && (#[trigger] list[i]).id == id
        }),
{
    let list = entries::blocklist(domains, subnets);
    let after = before.refreshed(list, time);
    let ids = list.map_values(|e: entries::EntryView| e.id);
    entries::law_blocklist_in_plain_terms(domains, subnets);
    lemma_split_by_kind(list, domains.len());
    law_kinds_partition(list);
    assert forall|i: int| 0 <= i < list.len() implies after.current_ids.contains(
        (#[trigger] list[i]).id,
    ) by {
        assert(ids[i] == list[i].id);
        assert(ids.contains(list[i].id));
    }
    assert forall|id: Seq<char>| #[trigger] after.current_ids.contains(id) implies exists|i: int|
        0 <= i < list.len() && (#[trigger] list[i]).id == id by {
        assert(ids.contains(id));
        let i = choose|i: int| 0 <= i < ids.len() && ids[i] == id;
        assert(list[i].id == id);
    }
}

proof fn lemma_split_by_kind(list: Seq<entries::EntryView>, count: nat)
    requires
        count <= list.len(),
        forall|i: int|
            0 <= i < count ==> (#[trigger] list[i]).kind == BlockedEntryKind::Domain,
        forall|i: int|
            count <= i < list.len() ==> (#[trigger] list[i]).kind == BlockedEntryKind::Subnet,
    ensures
        of_kind(list, BlockedEntryKind::Domain).len() == count,
    decreases list.len(),
{
    reveal(Seq::filter);
    if list.len() > 0 {
        let rest = list.drop_last();
        let last = list[list.len() - 1];
        assert forall|i: int| 0 <= i < rest.len() implies (#[trigger] rest[i]) == list[i] by {}
        if count == list.len() {
            assert(last.kind == BlockedEntryKind::Domain);
            lemma_split_by_kind(rest, (count - 1) as nat);
        } else {
            assert(last.kind == BlockedEntryKind::Subnet);
            lemma_split_by_kind(rest, count);
        }
    }
}

/// After a refresh that follows another one, a domain is reported as new exactly if it came with
/// this refresh and not with the one before; and alike for a subnet.
pub proof fn law_news_came_with_the_last_refresh_alone<T>(
    state: StateView<T>,
    domains: Seq<Seq<char>>,
    subnets: Seq<Seq<char>>,
    time: Option<T>,
    next_domains: Seq<Seq<char>>,
    next_subnets: Seq<Seq<char>>,
    next_time: Option<T>,
    e: entries::EntryView,
)
    requires
        entries::blocklist(next_domains, next_subnets).contains(e) || entries::blocklist(
            domains,
            subnets,
        ).contains(e),
    ensures
        ({
            let after = state.refreshed(entries::blocklist(domains, subnets), time).refreshed(
                entries::blocklist(next_domains, next_subnets),
                next_time,
            );
            &&& e.kind == BlockedEntryKind::Domain ==> (after.new_entries.contains(e)
                <==> next_domains.contains(e.value) && !domains.contains(e.value))
            &&& e.kind == BlockedEntryKind::Subnet ==> (after.new_entries.contains(e)
                <==> next_subnets.contains(e.value) && !subnets.contains(e.value))
        }),
{
    let first = entries::blocklist(domains, subnets);
    let second = entries::blocklist(next_domains, next_subnets);
    let before = state.refreshed(first, time);
    law_refresh_is_well_formed(state, domains, subnets, time);
    law_news_are_what_was_not_listed(before, next_domains, next_subnets, next_time);
    let q = |x: entries::EntryView| !first.contains(x);
    let news = second.filter(q);
    assert(before.refreshed(second, next_time).new_entries == news);
    entries::law_listed_exactly_if_it_came(domains, subnets, e);
    entries::law_listed_exactly_if_it_came(next_domains, next_subnets, e);
    assert(e == entries::entry_of(e.kind, e.value));
    if news.contains(e) {
        let i = choose|i: int| 0 <= i < news.len() && news[i] == e;
        second.lemma_filter_pred(q, i);
        second.lemma_filter_contains_rev(q, e);
    }
    if second.contains(e) && q(e) {
        let i = choose|i: int| 0 <= i < second.len() && second[i] == e;
        second.lemma_filter_contains(q, i);
    }
}

} // verus!
