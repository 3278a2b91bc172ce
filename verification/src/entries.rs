//! The entries of the blocklist and how they are listed.
use vstd::prelude::*;
use vstd::relations::*;
use vstd::seq_lib::*;
use vstd::string::*;
use vstd::utf8::*;

use crate::sorting;
use crate::text;

verus! {

/// What an entry blocks.
#[derive(Debug, Clone, Copy, PartialEq, Eq, Structural)]
pub enum BlockedEntryKind {
    Domain,
    Subnet,
}

/// One blocked domain or subnet.
#[derive(Debug)]
pub struct BlockedEntry {
    pub id: String,
    pub kind: BlockedEntryKind,
    pub value: String,
    pub source: &'static str,
}

/// An entry, with its strings as sequences of characters.
pub struct EntryView {
    pub id: Seq<char>,
    pub kind: BlockedEntryKind,
    pub value: Seq<char>,
    pub source: Seq<char>,
}

impl View for BlockedEntry {
    type V = EntryView;

    open spec fn view(&self) -> EntryView {
        EntryView { id: self.id@, kind: self.kind, value: self.value@, source: self.source@ }
    }
}

impl Clone for BlockedEntry {
    fn clone(&self) -> (r: Self)
        ensures
            r@ == self@,
    {
        BlockedEntry {
            id: self.id.clone(),
            kind: self.kind,
            value: self.value.clone(),
            source: self.source,
        }
    }
}

/// The views of a list of entries.
pub open spec fn views(v: Seq<BlockedEntry>) -> Seq<EntryView> {
    v.map_values(|e: BlockedEntry| e@)
}

/// What the identifiers of a kind begin with.
pub open spec fn id_prefix(kind: BlockedEntryKind) -> Seq<char> {
    match kind {
        BlockedEntryKind::Domain => "domain:"@,
        BlockedEntryKind::Subnet => "subnet:"@,
    }
}

/// The entry for a blocked value.
pub open spec fn entry_of(kind: BlockedEntryKind, value: Seq<char>) -> EntryView {
    EntryView { id: id_prefix(kind) + value, kind, value, source: "ru_blacklist"@ }
}

/// The entries for blocked values of one kind, in the order of the values.
pub open spec fn entries_of(kind: BlockedEntryKind, values: Seq<Seq<char>>) -> Seq<EntryView> {
    values.map_values(|value: Seq<char>| entry_of(kind, value))
}

/// The blocklist: the domains in ascending order, then the subnets in ascending order.
pub open spec fn blocklist(domains: Seq<Seq<char>>, subnets: Seq<Seq<char>>) -> Seq<EntryView> {
    entries_of(BlockedEntryKind::Domain, domains.sort_by(text::text_order())) + entries_of(
        BlockedEntryKind::Subnet,
        subnets.sort_by(text::text_order()),
    )
}

fn make_entry(kind: BlockedEntryKind, value: String) -> (r: BlockedEntry)
    ensures
        r@ == entry_of(kind, value@),
{
    let prefix = match kind {
        BlockedEntryKind::Domain => "domain:",
        BlockedEntryKind::Subnet => "subnet:",
    };
    let id = prefix.to_string().concat(value.as_str());
    BlockedEntry { id, kind, value, source: "ru_blacklist" }
}

/// Appends the entries for `values` to `list`.
fn append_entries(list: &mut Vec<BlockedEntry>, kind: BlockedEntryKind, values: Vec<String>)
    ensures
        views(final(list)@) == views(old(list)@) + entries_of(kind, sorting::texts(values@)),
{
    let ghost before = views(list@);
    let ghost all = sorting::texts(values@);
    for value in it: values.into_iter()
        invariant
            it.seq() == values@,
            all == sorting::texts(values@),
            views(list@) == before + entries_of(kind, all.take(it.index() as int)),
    {
        assert(value == values@[it.index() as int]);
        let ghost listed = list@;
        list.push(make_entry(kind, value));
        assert(views(list@) =~= views(listed).push(entry_of(kind, value@)));
        assert(all.take(it.index() + 1) =~= all.take(it.index() as int).push(value@));
        assert(views(list@) =~= before + entries_of(kind, all.take(it.index() + 1)));
    }
    assert(all.take(values@.len() as int) =~= all);
}

/// Lists what is blocked: the domains, then the subnets, each in the order of strings.
pub fn collect_blocked_entries(domains: Vec<String>, subnets: Vec<String>) -> (r: Vec<BlockedEntry>)
    ensures
        views(r@) == blocklist(sorting::texts(domains@), sorting::texts(subnets@)),
{
    let mut r: Vec<BlockedEntry> = Vec::new();
    append_entries(&mut r, BlockedEntryKind::Domain, sorting::sort_texts(domains));
    append_entries(&mut r, BlockedEntryKind::Subnet, sorting::sort_texts(subnets));
    assert(views(r@) =~= blocklist(sorting::texts(domains@), sorting::texts(subnets@)));
    r
}

/// The order of the list: domains before subnets, then by value.
pub open spec fn entry_le(a: EntryView, b: EntryView) -> bool {
    match (a.kind, b.kind) {
        (BlockedEntryKind::Domain, BlockedEntryKind::Subnet) => true,
        (BlockedEntryKind::Subnet, BlockedEntryKind::Domain) => false,
        _ => text::text_le(a.value, b.value),
    }
}

/// The order of the list as a relation.
pub open spec fn entry_order() -> spec_fn(EntryView, EntryView) -> bool {
    |a: EntryView, b: EntryView| entry_le(a, b)
}

/// The entries in the order in which they are handed in.
pub open spec fn unsorted(domains: Seq<Seq<char>>, subnets: Seq<Seq<char>>) -> Seq<EntryView> {
    entries_of(BlockedEntryKind::Domain, domains) + entries_of(BlockedEntryKind::Subnet, subnets)
}

proof fn lemma_entries_of_permuted(
    kind: BlockedEntryKind,
    x: Seq<Seq<char>>,
    y: Seq<Seq<char>>,
)
    requires
        x.to_multiset() == y.to_multiset(),
    ensures
        entries_of(kind, x).to_multiset() == entries_of(kind, y).to_multiset(),
    decreases x.len(),
{
    broadcast use group_to_multiset_ensures;
    assert(x.len() == x.to_multiset().len());
    assert(y.len() == y.to_multiset().len());
    if x.len() == 0 {
        assert(entries_of(kind, x) =~= entries_of(kind, y));
    } else {
        let v = x.last();
        assert(x.to_multiset().count(v) > 0);
        assert(y.contains(v));
        let i = choose|i: int| 0 <= i < y.len() && y[i] == v;
        let end = x.len() - 1;
        assert(x.remove(end) =~= x.drop_last());
        lemma_entries_of_permuted(kind, x.drop_last(), y.remove(i));
        let ex = entries_of(kind, x);
        let ey = entries_of(kind, y);
        assert(ex.remove(end) =~= entries_of(kind, x.drop_last()));
        assert(ey.remove(i) =~= entries_of(kind, y.remove(i)));
        assert(ex[end] == ey[i]);
        assert(ex.contains(ex[end]));
        assert(ey.contains(ey[i]));
        assert(ex.to_multiset() =~= ex.remove(end).to_multiset().insert(ex[end]));
        assert(ey.to_multiset() =~= ey.remove(i).to_multiset().insert(ey[i]));
    }
}

/// The blocklist is in the order of the list, and it holds exactly what was handed in:
/// each entry as often as it came.
pub proof fn law_blocklist_sorts_what_came(domains: Seq<Seq<char>>, subnets: Seq<Seq<char>>)
    ensures
        sorted_by(blocklist(domains, subnets), entry_order()),
        blocklist(domains, subnets).to_multiset() == unsorted(domains, subnets).to_multiset(),
        blocklist(domains, subnets).len() == domains.len() + subnets.len(),
{
    broadcast use group_to_multiset_ensures;
    let up = text::text_order();
    text::law_text_order_is_total();
    domains.lemma_sort_by_ensures(up);
    subnets.lemma_sort_by_ensures(up);
    let d = domains.sort_by(up);
    let s = subnets.sort_by(up);
    assert(d.len() == d.to_multiset().len());
    assert(s.len() == s.to_multiset().len());
    let list = blocklist(domains, subnets);
    assert forall|i: int, j: int| 0 <= i < j < list.len() implies #[trigger] entry_order()(
        list[i],
        list[j],
    ) by {
        if j < d.len() {
            assert(up(d[i], d[j]));
        } else if i >= d.len() {
            assert(up(s[i - d.len()], s[j - d.len()]));
        }
    }
    lemma_entries_of_permuted(BlockedEntryKind::Domain, d, domains);
    lemma_entries_of_permuted(BlockedEntryKind::Subnet, s, subnets);
    lemma_multiset_commutative(
        entries_of(BlockedEntryKind::Domain, d),
        entries_of(BlockedEntryKind::Subnet, s),
    );
    lemma_multiset_commutative(
        entries_of(BlockedEntryKind::Domain, domains),
        entries_of(BlockedEntryKind::Subnet, subnets),
    );
}

/// The blocklist does not depend on the order in which the domains and the subnets arrive.
pub proof fn law_blocklist_ignores_arrival_order(
    domains: Seq<Seq<char>>,
    subnets: Seq<Seq<char>>,
    other_domains: Seq<Seq<char>>,
    other_subnets: Seq<Seq<char>>,
)
    requires
        domains.to_multiset() == other_domains.to_multiset(),
        subnets.to_multiset() == other_subnets.to_multiset(),
    ensures
        blocklist(domains, subnets) == blocklist(other_domains, other_subnets),
{
    let up = text::text_order();
    text::law_text_order_is_total();
    domains.lemma_sort_by_ensures(up);
    subnets.lemma_sort_by_ensures(up);
    other_domains.lemma_sort_by_ensures(up);
    other_subnets.lemma_sort_by_ensures(up);
    lemma_sorted_unique(domains.sort_by(up), other_domains.sort_by(up), up);
    lemma_sorted_unique(subnets.sort_by(up), other_subnets.sort_by(up), up);
}

proof fn lemma_sorted_entries_unique(x: Seq<EntryView>, y: Seq<EntryView>)
    requires
        sorted_by(x, entry_order()),
        sorted_by(y, entry_order()),
        x.to_multiset() == y.to_multiset(),
        forall|i: int| 0 <= i < x.len() ==> (#[trigger] x[i]) == entry_of(x[i].kind, x[i].value),
    ensures
        x == y,
    decreases x.len(),
{
    broadcast use group_to_multiset_ensures;
    text::law_text_order_is_total();
    let up = text::text_order();
    let le = entry_order();
    assert(x.len() == x.to_multiset().len());
    assert(y.len() == y.to_multiset().len());
    if x.len() == 0 {
        assert(x =~= y);
    } else {
        assert(x.contains(x[0]));
        assert(y.contains(y[0]));
        assert(x.to_multiset().count(y[0]) > 0);
        assert(y.to_multiset().count(x[0]) > 0);
        assert(x.contains(y[0]));
        assert(y.contains(x[0]));
        let i = choose|i: int| 0 <= i < x.len() && x[i] == y[0];
        let j = choose|j: int| 0 <= j < y.len() && y[j] == x[0];
        assert(up(x[0].value, x[0].value));
        assert(le(x[0], y[0])) by {
            if i > 0 {
                assert(le(x[0], x[i]));
            }
        }
        assert(le(y[0], x[0])) by {
            if j > 0 {
                assert(le(y[0], y[j]));
            }
        }
        assert(up(x[0].value, y[0].value) && up(y[0].value, x[0].value));
        assert(x[0].value == y[0].value);
        assert(x[i] == entry_of(x[i].kind, x[i].value));
        assert(x[0] == y[0]);
        assert(x.remove(0) =~= x.drop_first());
        assert(y.remove(0) =~= y.drop_first());
        assert forall|k: int| 0 <= k < x.drop_first().len() implies (#[trigger] x.drop_first()[k])
            == entry_of(x.drop_first()[k].kind, x.drop_first()[k].value) by {
            assert(x.drop_first()[k] == x[k + 1]);
        }
        assert forall|p: int, q: int| 0 <= p < q < x.drop_first().len() implies #[trigger] le(
            x.drop_first()[p],
            x.drop_first()[q],
        ) by {
            assert(le(x[p + 1], x[q + 1]));
        }
        assert forall|p: int, q: int| 0 <= p < q < y.drop_first().len() implies #[trigger] le(
            y.drop_first()[p],
            y.drop_first()[q],
        ) by {
            assert(le(y[p + 1], y[q + 1]));
        }
        lemma_sorted_entries_unique(x.drop_first(), y.drop_first());
        assert(x =~= seq![x[0]] + x.drop_first());
        assert(y =~= seq![y[0]] + y.drop_first());
    }
}

/// The blocklist is the only list in the order of the list that holds what was handed in.
pub proof fn law_blocklist_is_the_only_sorted_list(
    domains: Seq<Seq<char>>,
    subnets: Seq<Seq<char>>,
    list: Seq<EntryView>,
)
    requires
        sorted_by(list, entry_order()),
        list.to_multiset() == unsorted(domains, subnets).to_multiset(),
    ensures
        list == blocklist(domains, subnets),
{
    law_blocklist_sorts_what_came(domains, subnets);
    lemma_sorted_entries_unique(blocklist(domains, subnets), list);
}

/// The identifier tells an entry: two blocked values with the same identifier are of the
/// same kind and have the same value.
pub proof fn law_ids_tell_entries_apart(
    kind: BlockedEntryKind,
    value: Seq<char>,
    other_kind: BlockedEntryKind,
    other_value: Seq<char>,
)
    requires
        entry_of(kind, value).id == entry_of(other_kind, other_value).id,
    ensures
        kind == other_kind,
        value == other_value,
{
    reveal_strlit("domain:");
    reveal_strlit("subnet:");
    let id = entry_of(kind, value).id;
    assert(id[0] == id_prefix(kind)[0]);
    assert(id[0] == id_prefix(other_kind)[0]);
    assert(id.skip(7) =~= value);
    assert(id.skip(7) =~= other_value);
}

/// The list in plain terms: as many entries as values came, the domains first; each entry has the
/// identifier `domain:` or `subnet:` followed by its value, and its source; and the values of
/// either kind are those that came, each as often as it came.
pub proof fn law_blocklist_in_plain_terms(domains: Seq<Seq<char>>, subnets: Seq<Seq<char>>)
    ensures
        blocklist(domains, subnets).len() == domains.len() + subnets.len(),
        forall|i: int|
            0 <= i < domains.len() ==> {
                let e = #[trigger] blocklist(domains, subnets)[i];
                &&& e.kind == BlockedEntryKind::Domain
                &&& e.id == seq!['d', 'o', 'm', 'a', 'i', 'n', ':'] + e.value
            },
        forall|i: int|
            domains.len() <= i < domains.len() + subnets.len() ==> {
                let e = #[trigger] blocklist(domains, subnets)[i];
                &&& e.kind == BlockedEntryKind::Subnet
                &&& e.id == seq!['s', 'u', 'b', 'n', 'e', 't', ':'] + e.value
            },
        forall|i: int|
            0 <= i < domains.len() + subnets.len() ==> (#[trigger] blocklist(
                domains,
                subnets,
            )[i]).source == seq!['r', 'u', '_', 'b', 'l', 'a', 'c', 'k', 'l', 'i', 's', 't'],
        blocklist(domains, subnets).take(domains.len() as int).map_values(
            |e: EntryView| e.value,
        ).to_multiset() == domains.to_multiset(),
        blocklist(domains, subnets).skip(domains.len() as int).map_values(
            |e: EntryView| e.value,
        ).to_multiset() == subnets.to_multiset(),
{
    broadcast use group_to_multiset_ensures;
    reveal_strlit("domain:");
    reveal_strlit("subnet:");
    reveal_strlit("ru_blacklist");
    assert("domain:"@ =~= seq!['d', 'o', 'm', 'a', 'i', 'n', ':']);
    assert("subnet:"@ =~= seq!['s', 'u', 'b', 'n', 'e', 't', ':']);
    assert("ru_blacklist"@ =~= seq!['r', 'u', '_', 'b', 'l', 'a', 'c', 'k', 'l', 'i', 's', 't']);
    let up = text::text_order();
    text::law_text_order_is_total();
    domains.lemma_sort_by_ensures(up);
    subnets.lemma_sort_by_ensures(up);
    let d = domains.sort_by(up);
    let s = subnets.sort_by(up);
    assert(d.len() == d.to_multiset().len());
    assert(s.len() == s.to_multiset().len());
    let list = blocklist(domains, subnets);
    assert(list.take(domains.len() as int).map_values(|e: EntryView| e.value) =~= d);
    assert(list.skip(domains.len() as int).map_values(|e: EntryView| e.value) =~= s);
}

/// Within a kind the list ascends: of two entries, where their UTF-8 bytes first differ the
/// earlier one has the smaller byte, and the later one is never a mere beginning of the earlier
/// one.
pub proof fn law_blocklist_ascends(
    domains: Seq<Seq<char>>,
    subnets: Seq<Seq<char>>,
    i: int,
    j: int,
    k: int,
)
    requires
        0 <= i < j < blocklist(domains, subnets).len(),
        blocklist(domains, subnets)[i].kind == blocklist(domains, subnets)[j].kind,
        0 <= k <= encode_utf8(blocklist(domains, subnets)[i].value).len(),
        k <= encode_utf8(blocklist(domains, subnets)[j].value).len(),
        encode_utf8(blocklist(domains, subnets)[i].value).take(k) == encode_utf8(
            blocklist(domains, subnets)[j].value,
        ).take(k),
    ensures
        k < encode_utf8(blocklist(domains, subnets)[i].value).len() && k < encode_utf8(
            blocklist(domains, subnets)[j].value,
        ).len() ==> encode_utf8(blocklist(domains, subnets)[i].value)[k] <= encode_utf8(
            blocklist(domains, subnets)[j].value,
        )[k],
        k == encode_utf8(blocklist(domains, subnets)[j].value).len() ==> k == encode_utf8(
            blocklist(domains, subnets)[i].value,
        ).len(),
{
    let list = blocklist(domains, subnets);
    law_blocklist_sorts_what_came(domains, subnets);
    assert(entry_order()(list[i], list[j]));
    let x = encode_utf8(list[i].value);
    let y = encode_utf8(list[j].value);
    if k < x.len() && k < y.len() && y[k] < x[k] {
        text::law_smaller_byte_comes_first(y, x, k);
    }
    if k == y.len() && k < x.len() {
        assert(y.take(k) =~= y);
        text::law_beginning_comes_first(y, x);
    }
}

/// The views of a list of entries show what the entries hold, one for one.
pub proof fn law_views_are_what_the_entries_hold(v: Seq<BlockedEntry>)
    ensures
        views(v).len() == v.len(),
        forall|i: int|
            0 <= i < v.len() ==> {
                &&& (#[trigger] views(v)[i]).id == v[i].id@
                &&& views(v)[i].kind == v[i].kind
                &&& views(v)[i].value == v[i].value@
                &&& views(v)[i].source == v[i].source@
            },
{
}

/// An entry for a value is listed exactly if the value came among those of its kind.
pub proof fn law_listed_exactly_if_it_came(
    domains: Seq<Seq<char>>,
    subnets: Seq<Seq<char>>,
    e: EntryView,
)
    ensures
        blocklist(domains, subnets).contains(e) <==> match e.kind {
            BlockedEntryKind::Domain => domains.contains(e.value) && e == entry_of(
                BlockedEntryKind::Domain,
                e.value,
            ),
            BlockedEntryKind::Subnet => subnets.contains(e.value) && e == entry_of(
                BlockedEntryKind::Subnet,
                e.value,
            ),
        },
{
    broadcast use group_to_multiset_ensures;
    let up = text::text_order();
    text::law_text_order_is_total();
    domains.lemma_sort_by_ensures(up);
    subnets.lemma_sort_by_ensures(up);
    let d = domains.sort_by(up);
    let s = subnets.sort_by(up);
    let list = blocklist(domains, subnets);
    assert(domains.contains(e.value) <==> domains.to_multiset().count(e.value) > 0);
    assert(d.contains(e.value) <==> d.to_multiset().count(e.value) > 0);
    assert(subnets.contains(e.value) <==> subnets.to_multiset().count(e.value) > 0);
    assert(s.contains(e.value) <==> s.to_multiset().count(e.value) > 0);
    if list.contains(e) {
        let i = choose|i: int| 0 <= i < list.len() && list[i] == e;
        if i < d.len() {
            assert(d[i] == e.value);
        } else {
            assert(s[i - d.len()] == e.value);
        }
    }
    if e.kind == BlockedEntryKind::Domain && d.contains(e.value) && e == entry_of(e.kind, e.value) {
        let i = choose|i: int| 0 <= i < d.len() && d[i] == e.value;
        assert(list[i] == e);
    }
    if e.kind == BlockedEntryKind::Subnet && s.contains(e.value) && e == entry_of(e.kind, e.value) {
        let i = choose|i: int| 0 <= i < s.len() && s[i] == e.value;
        assert(list[d.len() + i] == e);
    }
}

/// The entry for a value has that value and kind, an identifier made of the kind and the value,
/// and the source of the list.
pub proof fn law_entry_in_plain_terms(kind: BlockedEntryKind, value: Seq<char>)
    ensures
        entry_of(kind, value).kind == kind,
        entry_of(kind, value).value == value,
        kind == BlockedEntryKind::Domain ==> entry_of(kind, value).id == seq![
            'd',
            'o',
            'm',
            'a',
            'i',
            'n',
            ':',
        ] + value,
        kind == BlockedEntryKind::Subnet ==> entry_of(kind, value).id == seq![
            's',
            'u',
            'b',
            'n',
            'e',
            't',
            ':',
        ] + value,
        entry_of(kind, value).source == seq![
            'r',
            'u',
            '_',
            'b',
            'l',
            'a',
            'c',
            'k',
            'l',
            'i',
            's',
            't',
        ],
{
    reveal_strlit("domain:");
    reveal_strlit("subnet:");
    reveal_strlit("ru_blacklist");
    assert("domain:"@ =~= seq!['d', 'o', 'm', 'a', 'i', 'n', ':']);
    assert("subnet:"@ =~= seq!['s', 'u', 'b', 'n', 'e', 't', ':']);
    assert("ru_blacklist"@ =~= seq!['r', 'u', '_', 'b', 'l', 'a', 'c', 'k', 'l', 'i', 's', 't']);
}

} // verus!
