//! A merge sort for strings.
use vstd::prelude::*;
use vstd::multiset::*;
use vstd::relations::*;
use vstd::seq_lib::*;

use crate::text;

verus! {

/// What each string of `v` says.
pub open spec fn texts(v: Seq<String>) -> Seq<Seq<char>> {
    v.map_values(|s: String| s@)
}

/// The order of strings, turned round where `descending` is set.
spec fn direction(descending: bool) -> spec_fn(Seq<char>, Seq<char>) -> bool {
    |a: Seq<char>, b: Seq<char>|
        if descending {
            text::text_le(b, a)
        } else {
            text::text_le(a, b)
        }
}

proof fn lemma_direction_total(descending: bool)
    ensures
        total_ordering(direction(descending)),
{
    text::law_text_order_is_total();
    let up = text::text_order();
    let d = direction(descending);
    assert forall|x: Seq<char>| #[trigger] d(x, x) by {
        assert(up(x, x));
    }
    assert forall|x: Seq<char>, y: Seq<char>| #[trigger] d(x, y) && #[trigger] d(y, x) implies x
        == y by {
        assert(up(x, y) && up(y, x));
    }
    assert forall|x: Seq<char>, y: Seq<char>, z: Seq<char>| #[trigger]
        d(x, y) && #[trigger] d(y, z) implies d(x, z) by {
        if descending {
            assert(up(z, y) && up(y, x));
        } else {
            assert(up(x, y) && up(y, z));
        }
    }
    assert forall|x: Seq<char>, y: Seq<char>| #[trigger] d(x, y) || #[trigger] d(y, x) by {
        assert(up(x, y) || up(y, x));
    }
}

fn comes_first(a: &String, b: &String, descending: bool) -> (r: bool)
    ensures
        r == direction(descending)(a@, b@),
{
    if descending {
        text::at_most(b, a)
    } else {
        text::at_most(a, b)
    }
}

/// Taking the last element off moves it out of the multiset.
proof fn lemma_last_out(v: Seq<String>)
    requires
        v.len() > 0,
    ensures
        texts(v).to_multiset() == texts(v.drop_last()).to_multiset().insert(v.last()@),
{
    broadcast use group_to_multiset_ensures;
    assert(texts(v) =~= texts(v.drop_last()).push(v.last()@));
}

/// Merges two runs that are sorted against `descending` into one sorted by it.
/// Both runs are read from their ends, so every string is moved and none is copied.
fn merge(a: Vec<String>, b: Vec<String>, descending: bool) -> (r: Vec<String>)
    requires
        sorted_by(texts(a@), direction(!descending)),
        sorted_by(texts(b@), direction(!descending)),
    ensures
        sorted_by(texts(r@), direction(descending)),
        texts(r@).to_multiset() == texts(a@).to_multiset().add(texts(b@).to_multiset()),
{
    let ghost total = texts(a@).to_multiset().add(texts(b@).to_multiset());
    let ghost d = direction(descending);
    let mut left = a;
    let mut right = b;
    let mut out: Vec<String> = Vec::new();
    proof {
        broadcast use group_to_multiset_ensures;
        assert(texts(out@) =~= Seq::empty());
        assert(texts(out@).to_multiset().add(texts(left@).to_multiset()).add(
            texts(right@).to_multiset(),
        ) =~= total);
    }
    while left.len() > 0 || right.len() > 0
        invariant
            d == direction(descending),
            sorted_by(texts(left@), direction(!descending)),
            sorted_by(texts(right@), direction(!descending)),
            sorted_by(texts(out@), d),
            forall|i: int, j: int|
                0 <= i < out@.len() && 0 <= j < left@.len() ==> #[trigger] d(
                    texts(out@)[i],
                    texts(left@)[j],
                ),
            forall|i: int, j: int|
                0 <= i < out@.len() && 0 <= j < right@.len() ==> #[trigger] d(
                    texts(out@)[i],
                    texts(right@)[j],
                ),
            texts(out@).to_multiset().add(texts(left@).to_multiset()).add(
                texts(right@).to_multiset(),
            ) == total,
        decreases left@.len() + right@.len(),
    {
        let ghost left0 = left@;
        let ghost right0 = right@;
        let ghost out0 = out@;
        let from_left: bool = if left.len() == 0 {
            false
        } else if right.len() == 0 {
            true
        } else {
            comes_first(&left[left.len() - 1], &right[right.len() - 1], descending)
        };
        let popped = if from_left {
            left.pop()
        } else {
            right.pop()
        };
        if let Some(next) = popped {
            let ghost x = next@;
            out.push(next);
            proof {
                broadcast use group_to_multiset_ensures;
                lemma_direction_total(descending);
                let back = direction(!descending);
                assert forall|p: Seq<char>, q: Seq<char>| #[trigger] back(p, q) == d(q, p) by {}
                assert(texts(out@) =~= texts(out0).push(x));
                if from_left {
                    lemma_last_out(left0);
                    assert(texts(left@) =~= texts(left0).drop_last());
                    assert(x == texts(left0).last());
                } else {
                    lemma_last_out(right0);
                    assert(texts(right@) =~= texts(right0).drop_last());
                    assert(x == texts(right0).last());
                }
                assert forall|j: int| 0 <= j < left@.len() implies #[trigger] d(
                    x,
                    texts(left@)[j],
                ) by {
                    assert(texts(left@)[j] == texts(left0)[j]);
                    let end = texts(left0).len() - 1;
                    if j < end {
                        assert(back(texts(left0)[j], texts(left0)[end]));
                    }
                    assert(d(texts(left0)[end], texts(left0)[j]));
                    assert(d(x, texts(left0)[end]) || d(texts(left0)[end], x));
                }
                assert forall|j: int| 0 <= j < right@.len() implies #[trigger] d(
                    x,
                    texts(right@)[j],
                ) by {
                    assert(texts(right@)[j] == texts(right0)[j]);
                    let end = texts(right0).len() - 1;
                    if j < end {
                        assert(back(texts(right0)[j], texts(right0)[end]));
                    }
                    assert(d(texts(right0)[end], texts(right0)[j]));
                }
                assert(texts(out@).to_multiset().add(texts(left@).to_multiset()).add(
                    texts(right@).to_multiset(),
                ) =~= total);
            }
        }
    }
    proof {
        broadcast use group_to_multiset_ensures;
        assert(texts(left@) =~= Seq::empty());
        assert(texts(right@) =~= Seq::empty());
        assert(texts(out@).to_multiset() =~= total);
    }
    out
}

fn sort_run(v: Vec<String>, descending: bool) -> (r: Vec<String>)
    ensures
        sorted_by(texts(r@), direction(descending)),
        texts(r@).to_multiset() == texts(v@).to_multiset(),
    decreases v@.len(),
{
    let n: usize = v.len();
    if n <= 1 {
        return v;
    }
    let mut left = v;
    let right = left.split_off(n / 2);
    proof {
        assert(texts(v@) =~= texts(left@) + texts(right@));
        lemma_multiset_commutative(texts(left@), texts(right@));
    }
    let a = sort_run(left, !descending);
    let b = sort_run(right, !descending);
    merge(a, b, descending)
}

/// Sorts strings in ascending order.
pub fn sort_texts(v: Vec<String>) -> (r: Vec<String>)
    ensures
        texts(r@) == texts(v@).sort_by(text::text_order()),
{
    let r = sort_run(v, false);
    proof {
        let up = text::text_order();
        text::law_text_order_is_total();
        assert(direction(false) =~= up);
        texts(v@).lemma_sort_by_ensures(up);
        lemma_sorted_unique(texts(r@), texts(v@).sort_by(up), up);
    }
    r
}

/// The texts of a list of strings are what the strings hold, one for one.
pub proof fn law_texts_are_what_the_strings_hold(v: Seq<String>)
    ensures
        texts(v).len() == v.len(),
        forall|i: int| 0 <= i < v.len() ==> #[trigger] texts(v)[i] == v[i]@,
{
}

} // verus!
