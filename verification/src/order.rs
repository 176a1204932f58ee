//! The order in which reports are listed: by a heading text, then by the rule, then as they came.

use vstd::prelude::*;
use vstd::relations::{antisymmetric, reflexive, sorted_by, strongly_connected, total_ordering, transitive};
use vstd::slice::slice_subrange;

use crate::chars;
use crate::text;

verus! {

/// What a report is listed by. A heading that is absent comes before any other.
pub struct SortKey {
    pub heading: Option<Vec<char>>,
    pub rule: Vec<char>,
}

/// The view of a [`SortKey`].
pub struct KeyView {
    pub heading: Option<Seq<char>>,
    pub rule: Seq<char>,
}

impl View for SortKey {
    type V = KeyView;

    open spec fn view(&self) -> KeyView {
        KeyView {
            heading: match self.heading {
                Some(h) => Some(h@),
                None => None,
            },
            rule: self.rule@,
        }
    }
}

/// The views of keys.
pub open spec fn keys_of(v: Seq<SortKey>) -> Seq<KeyView> {
    v.map_values(|k: SortKey| k@)
}

/// Does heading `a` come before heading `b`?
pub open spec fn heading_before(a: Option<Seq<char>>, b: Option<Seq<char>>) -> bool {
    match (a, b) {
        (Some(x), Some(y)) => text::precedes(x, y),
        (None, Some(_)) => true,
        _ => false,
    }
}

/// Does key `a` come before key `b`?
pub open spec fn key_before(a: KeyView, b: KeyView) -> bool {
    heading_before(a.heading, b.heading) || (a.heading == b.heading && text::precedes(
        a.rule,
        b.rule,
    ))
}

/// The order of positions: by key, and with equal keys by position.
pub open spec fn position_order(keys: Seq<KeyView>) -> spec_fn(usize, usize) -> bool {
    |i: usize, j: usize|
        key_before(keys[i as int], keys[j as int]) || (keys[i as int] == keys[j as int] && i <= j)
}

/// The chosen positions in the order of their keys.
pub open spec fn listed(keys: Seq<KeyView>, chosen: Seq<usize>) -> Seq<usize> {
    chosen.sort_by(position_order(keys))
}

/// `precedes` is a strict total order of texts.
pub proof fn lemma_precedes_total(a: Seq<char>, b: Seq<char>)
    ensures
        !(text::precedes(a, b) && text::precedes(b, a)),
        !text::precedes(a, a),
        text::precedes(a, b) || text::precedes(b, a) || a == b,
    decreases a.len(),
{
    if a.len() > 0 {
        lemma_precedes_total(a.skip(1), a.skip(1));
        if b.len() > 0 && a.first() == b.first() {
            lemma_precedes_total(a.skip(1), b.skip(1));
            if a.skip(1) == b.skip(1) {
                assert(a == seq![a.first()] + a.skip(1));
                assert(b == seq![b.first()] + b.skip(1));
            }
        }
    } else if b.len() == 0 {
        assert(a == b);
    }
}

/// `precedes` is transitive.
pub proof fn lemma_precedes_transitive(a: Seq<char>, b: Seq<char>, c: Seq<char>)
    requires
        text::precedes(a, b),
        text::precedes(b, c),
    ensures
        text::precedes(a, c),
    decreases a.len(),
{
    if a.len() > 0 && a.first() == b.first() && b.first() == c.first() {
        lemma_precedes_transitive(a.skip(1), b.skip(1), c.skip(1));
    }
}

/// `key_before` is a strict total order of keys.
pub proof fn lemma_key_before_total(a: KeyView, b: KeyView)
    ensures
        !(key_before(a, b) && key_before(b, a)),
        !key_before(a, a),
        key_before(a, b) || key_before(b, a) || a == b,
{
    lemma_precedes_total(a.rule, b.rule);
    lemma_precedes_total(a.rule, a.rule);
    if let (Some(x), Some(y)) = (a.heading, b.heading) {
        lemma_precedes_total(x, y);
        lemma_precedes_total(x, x);
    }
    if let Some(x) = a.heading {
        lemma_precedes_total(x, x);
    }
}

proof fn lemma_key_before_transitive(a: KeyView, b: KeyView, c: KeyView)
    requires
        key_before(a, b),
        key_before(b, c),
    ensures
        key_before(a, c),
{
    if text::precedes(a.rule, b.rule) && text::precedes(b.rule, c.rule) {
        lemma_precedes_transitive(a.rule, b.rule, c.rule);
    }
    if let (Some(x), Some(y)) = (a.heading, b.heading) {
        if let Some(z) = c.heading {
            if text::precedes(x, y) && text::precedes(y, z) {
                lemma_precedes_transitive(x, y, z);
            }
        }
    }
}

/// The order of positions is total, so that a listing is determined by the keys.
pub proof fn lemma_position_order_total(keys: Seq<KeyView>)
    ensures
        total_ordering(position_order(keys)),
{
    let leq = position_order(keys);
    assert(reflexive(leq));
    assert forall|i: usize, j: usize| #[trigger] leq(i, j) && #[trigger] leq(j, i) implies i
        == j by {
        lemma_key_before_total(keys[i as int], keys[j as int]);
    }
    assert(antisymmetric(leq));
    assert forall|i: usize, j: usize, k: usize| #[trigger] leq(i, j) && #[trigger] leq(
        j,
        k,
    ) implies leq(i, k) by {
        if key_before(keys[i as int], keys[j as int]) && key_before(
            keys[j as int],
            keys[k as int],
        ) {
            lemma_key_before_transitive(keys[i as int], keys[j as int], keys[k as int]);
        }
    }
    assert(transitive(leq));
    assert forall|i: usize, j: usize| #[trigger] leq(i, j) || #[trigger] leq(j, i) by {
        lemma_key_before_total(keys[i as int], keys[j as int]);
    }
    assert(strongly_connected(leq));
}

/// Does key `a` come before key `b`?
fn is_before(a: &SortKey, b: &SortKey) -> (r: bool)
    ensures
        r == key_before(a@, b@),
{
    let same_heading: bool = match (&a.heading, &b.heading) {
        (Some(x), Some(y)) => {
            if chars::precedes(x.as_slice(), y.as_slice()) {
                return true;
            }
            chars::same(x.as_slice(), y.as_slice())
        },
        (None, Some(_)) => {
            return true;
        },
        (Some(_), None) => false,
        (None, None) => true,
    };
    same_heading && chars::precedes(a.rule.as_slice(), b.rule.as_slice())
}

/// Does position `i` come no later than position `j`?
fn no_later(keys: &Vec<SortKey>, i: usize, j: usize) -> (r: bool)
    requires
        i < keys@.len(),
        j < keys@.len(),
    ensures
        r == position_order(keys_of(keys@))(i, j),
{
    let ghost views = keys_of(keys@);
    proof {
        assert(views[i as int] == keys@[i as int]@);
        assert(views[j as int] == keys@[j as int]@);
        lemma_key_before_total(views[i as int], views[j as int]);
    }
    if is_before(&keys[i], &keys[j]) {
        true
    } else if is_before(&keys[j], &keys[i]) {
        false
    } else {
        i <= j
    }
}

/// Merges two sorted runs of positions.
fn merge(keys: &Vec<SortKey>, a: &Vec<usize>, b: &Vec<usize>) -> (r: Vec<usize>)
    requires
        forall|k: int| 0 <= k < a@.len() ==> #[trigger] a@[k] < keys@.len(),
        forall|k: int| 0 <= k < b@.len() ==> #[trigger] b@[k] < keys@.len(),
        sorted_by(a@, position_order(keys_of(keys@))),
        sorted_by(b@, position_order(keys_of(keys@))),
    ensures
        r@.to_multiset() == (a@ + b@).to_multiset(),
        sorted_by(r@, position_order(keys_of(keys@))),
{
    let ghost leq = position_order(keys_of(keys@));
    proof {
        lemma_position_order_total(keys_of(keys@));
    }
    let mut out: Vec<usize> = Vec::new();
    let n: usize = a.len();
    let m: usize = b.len();
    let mut i: usize = 0;
    let mut j: usize = 0;
    assert(a@.take(0) + b@.take(0) == out@);
    while i < n || j < m
        invariant
            i <= n == a@.len(),
            j <= m == b@.len(),
            leq == position_order(keys_of(keys@)),
            total_ordering(leq),
            forall|k: int| 0 <= k < a@.len() ==> #[trigger] a@[k] < keys@.len(),
            forall|k: int| 0 <= k < b@.len() ==> #[trigger] b@[k] < keys@.len(),
            sorted_by(a@, leq),
            sorted_by(b@, leq),
            sorted_by(out@, leq),
            out@.to_multiset() == (a@.take(i as int) + b@.take(j as int)).to_multiset(),
            forall|k: int, l: int|
                0 <= k < out@.len() && i <= l < n ==> #[trigger] leq(out@[k], a@[l]),
            forall|k: int, l: int|
                0 <= k < out@.len() && j <= l < m ==> #[trigger] leq(out@[k], b@[l]),
        decreases (n - i) + (m - j),
    {
        let ghost before = out@;
        let from_a: bool = if i == n {
            false
        } else if j == m {
            true
        } else {
            no_later(keys, a[i], b[j])
        };
        if from_a {
            out.push(a[i]);
            proof {
                assert(a@.take(i + 1) == a@.take(i as int).push(a@[i as int]));
                lemma_merged_one(a@, i as int, b@, j as int, before);
                assert forall|k: int, l: int| 0 <= k < out@.len() && j <= l < m implies #[trigger]
                    leq(out@[k], b@[l]) by {
                    if k == before.len() {
                        assert(leq(a@[i as int], b@[j as int]));
                        if l > j {
                            assert(leq(b@[j as int], b@[l]));
                        }
                    }
                }
                assert forall|k: int, l: int| 0 <= k < out@.len() && i + 1 <= l
                    < n implies #[trigger] leq(out@[k], a@[l]) by {
                    if k == before.len() {
                        assert(leq(a@[i as int], a@[l]));
                    }
                }
                assert forall|k: int, l: int| 0 <= k < l < out@.len() implies #[trigger] leq(
                    out@[k],
                    out@[l],
                ) by {
                    if l < before.len() {
                        assert(leq(before[k], before[l]));
                    } else {
                        assert(leq(before[k], a@[i as int]));
                    }
                }
            }
            i += 1;
        } else {
            out.push(b[j]);
            proof {
                assert(b@.take(j + 1) == b@.take(j as int).push(b@[j as int]));
                lemma_merged_other(a@, i as int, b@, j as int, before);
                assert forall|k: int, l: int| 0 <= k < out@.len() && i <= l < n implies #[trigger]
                    leq(out@[k], a@[l]) by {
                    if k == before.len() {
                        assert(leq(a@[i as int], b@[j as int]) || leq(b@[j as int], a@[i as int]));
                        if l > i {
                            assert(leq(a@[i as int], a@[l]));
                        }
                    }
                }
                assert forall|k: int, l: int| 0 <= k < out@.len() && j + 1 <= l
                    < m implies #[trigger] leq(out@[k], b@[l]) by {
                    if k == before.len() {
                        assert(leq(b@[j as int], b@[l]));
                    }
                }
                assert forall|k: int, l: int| 0 <= k < l < out@.len() implies #[trigger] leq(
                    out@[k],
                    out@[l],
                ) by {
                    if l < before.len() {
                        assert(leq(before[k], before[l]));
                    } else {
                        assert(leq(before[k], b@[j as int]));
                    }
                }
            }
            j += 1;
        }
    }
    assert(a@.take(n as int) == a@);
    assert(b@.take(m as int) == b@);
    out
}

proof fn lemma_merged_one(a: Seq<usize>, i: int, b: Seq<usize>, j: int, out: Seq<usize>)
    requires
        0 <= i < a.len(),
        0 <= j <= b.len(),
        out.to_multiset() == (a.take(i) + b.take(j)).to_multiset(),
    ensures
        out.push(a[i]).to_multiset() == (a.take(i + 1) + b.take(j)).to_multiset(),
{
    broadcast use vstd::multiset::group_multiset_axioms;
    broadcast use vstd::seq_lib::group_to_multiset_ensures;

    vstd::seq_lib::lemma_multiset_commutative(a.take(i), b.take(j));
    vstd::seq_lib::lemma_multiset_commutative(a.take(i + 1), b.take(j));
    assert(a.take(i + 1) == a.take(i).push(a[i]));
    assert(out.push(a[i]).to_multiset() =~= (a.take(i + 1) + b.take(j)).to_multiset());
}

proof fn lemma_merged_other(a: Seq<usize>, i: int, b: Seq<usize>, j: int, out: Seq<usize>)
    requires
        0 <= i <= a.len(),
        0 <= j < b.len(),
        out.to_multiset() == (a.take(i) + b.take(j)).to_multiset(),
    ensures
        out.push(b[j]).to_multiset() == (a.take(i) + b.take(j + 1)).to_multiset(),
{
    broadcast use vstd::multiset::group_multiset_axioms;
    broadcast use vstd::seq_lib::group_to_multiset_ensures;

    assert(a.take(i) + b.take(j + 1) == (a.take(i) + b.take(j)).push(b[j]));
}

/// The positions in the order of their keys.
pub fn sort_positions(keys: &Vec<SortKey>, chosen: &[usize]) -> (r: Vec<usize>)
    requires
        forall|k: int| 0 <= k < chosen@.len() ==> #[trigger] chosen@[k] < keys@.len(),
    ensures
        r@ == listed(keys_of(keys@), chosen@),
        r@.len() == chosen@.len(),
        forall|k: int| 0 <= k < r@.len() ==> chosen@.contains(#[trigger] r@[k]),
    decreases chosen@.len(),
{
    let ghost leq = position_order(keys_of(keys@));
    let n: usize = chosen.len();
    let out: Vec<usize> = if n <= 1 {
        let mut one: Vec<usize> = Vec::new();
        if n == 1 {
            one.push(chosen[0]);
        }
        assert(one@ == chosen@);
        one
    } else {
        let half: usize = n / 2;
        let front: &[usize] = slice_subrange(chosen, 0, half);
        let back: &[usize] = slice_subrange(chosen, half, n);
        assert(front@ + back@ == chosen@);
        let a: Vec<usize> = sort_positions(keys, front);
        let b: Vec<usize> = sort_positions(keys, back);
        proof {
            lemma_position_order_total(keys_of(keys@));
            front@.lemma_sort_by_ensures(leq);
            back@.lemma_sort_by_ensures(leq);
            vstd::seq_lib::lemma_multiset_commutative(front@, back@);
            vstd::seq_lib::lemma_multiset_commutative(a@, b@);
            assert forall|k: int| 0 <= k < a@.len() implies #[trigger] a@[k] < keys@.len() by {
                assert(front@.contains(a@[k]));
            }
            assert forall|k: int| 0 <= k < b@.len() implies #[trigger] b@[k] < keys@.len() by {
                assert(back@.contains(b@[k]));
            }
        }
        merge(keys, &a, &b)
    };
    proof {
        lemma_listed(keys_of(keys@), chosen@, out@);
    }
    out
}

/// A sorted arrangement of the chosen positions is the listing of them.
proof fn lemma_listed(keys: Seq<KeyView>, chosen: Seq<usize>, order: Seq<usize>)
    requires
        order.to_multiset() == chosen.to_multiset(),
        sorted_by(order, position_order(keys)),
    ensures
        order == listed(keys, chosen),
        order.len() == chosen.len(),
        forall|k: int| 0 <= k < order.len() ==> chosen.contains(#[trigger] order[k]),
{
    let leq = position_order(keys);
    lemma_position_order_total(keys);
    chosen.lemma_sort_by_ensures(leq);
    vstd::seq_lib::lemma_sorted_unique(order, chosen.sort_by(leq), leq);
    broadcast use vstd::seq_lib::group_to_multiset_ensures;

    vstd::seq_lib::to_multiset_len(order);
    vstd::seq_lib::to_multiset_len(chosen);
    assert forall|k: int| 0 <= k < order.len() implies chosen.contains(#[trigger] order[k]) by {
        assert(order.contains(order[k]));
        assert(order.to_multiset().count(order[k]) > 0);
    }
}

/// A listing holds the chosen positions, each as often as it was chosen, and no key in it comes
/// before an earlier one.
pub proof fn listings_are_in_order(keys: Seq<KeyView>, chosen: Seq<usize>)
    ensures
        listed(keys, chosen).len() == chosen.len(),
        listed(keys, chosen).to_multiset() == chosen.to_multiset(),
        forall|i: int, j: int|
            0 <= i < j < chosen.len() ==> !key_before(
                keys[#[trigger] listed(keys, chosen)[j] as int],
                keys[#[trigger] listed(keys, chosen)[i] as int],
            ),
{
    let leq = position_order(keys);
    lemma_position_order_total(keys);
    chosen.lemma_sort_by_ensures(leq);
    let all = listed(keys, chosen);
    lemma_listed(keys, chosen, all);
    assert forall|i: int, j: int| 0 <= i < j < chosen.len() implies !key_before(
        keys[#[trigger] all[j] as int],
        keys[#[trigger] all[i] as int],
    ) by {
        assert(leq(all[i], all[j]));
        lemma_key_before_total(keys[all[i] as int], keys[all[j] as int]);
    }
}

/// Of two positions in a listing, the earlier has the key that comes first, or the same key and is
/// no greater than the other.
pub proof fn listings_are_sorted(keys: Seq<KeyView>, chosen: Seq<usize>)
    ensures
        forall|i: int, j: int|
            #![trigger listed(keys, chosen)[i], listed(keys, chosen)[j]]
            0 <= i < j < listed(keys, chosen).len() ==> ({
                let a = listed(keys, chosen)[i];
                let b = listed(keys, chosen)[j];
                key_before(keys[a as int], keys[b as int]) || (keys[a as int] == keys[b as int] && a
                    <= b)
            }),
{
    let leq = position_order(keys);
    lemma_position_order_total(keys);
    chosen.lemma_sort_by_ensures(leq);
    let all = listed(keys, chosen);
    assert forall|i: int, j: int|
        #![trigger all[i], all[j]]
        0 <= i < j < all.len() implies key_before(keys[all[i] as int], keys[all[j] as int]) || (
    keys[all[i] as int] == keys[all[j] as int] && all[i] <= all[j]) by {
        assert(leq(all[i], all[j]));
    }
}

} // verus!
