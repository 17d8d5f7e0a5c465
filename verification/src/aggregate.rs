//! Bringing the candidates of all providers together: sorted by name, and
//! of the candidates with one name only the one that was enumerated first.

use crate::providers::{item_views, ProviderItem};
use crate::sorting::{lemma_strict_order_unique, sort, strictly_ordered, Precedence};
use crate::text::{lemma_text_order, str_before, str_eq, text_before};
use vstd::multiset::*;
use vstd::prelude::*;
use vstd::seq_lib::*;

verus! {

/// The rule by which the places of candidates are sorted: by name, and
/// among equal names the earlier place first.
pub struct ByName<'a> {
    pub items: &'a Vec<ProviderItem>,
}

impl<'a> Precedence<usize> for ByName<'a> {
    open spec fn admits(&self, i: usize) -> bool {
        i < self.items@.len()
    }

    open spec fn precedes(&self, i: usize, j: usize) -> bool {
        let a = self.items@[i as int].name@;
        let b = self.items@[j as int].name@;
        text_before(a, b) || (a == b && i < j)
    }

    proof fn lemma_consistent(&self, i: usize, j: usize, k: usize) {
        let a = self.items@[i as int].name@;
        let b = self.items@[j as int].name@;
        let c = self.items@[k as int].name@;
        lemma_text_order(a, b, c);
        lemma_text_order(b, a, c);
        lemma_text_order(b, c, a);
        lemma_text_order(c, b, a);
        lemma_text_order(a, c, b);
        lemma_text_order(c, a, b);
    }

    fn comes_first(&self, i: usize, j: usize) -> (first: bool) {
        let a = self.items[i].name.as_str();
        let b = self.items[j].name.as_str();
        str_before(a, b) || (i < j && str_eq(a, b))
    }
}

/// Whether no candidate before place `i` has the name of the one at `i`.
pub open spec fn first_of_name(items: Seq<ProviderItem>, i: int) -> bool {
    &&& 0 <= i < items.len()
    &&& forall|j: int| 0 <= j < i ==> (#[trigger] items[j]).name@ != items[i].name@
}

/// Whether the names of `out` ascend strictly.
pub open spec fn ascending(out: Seq<ProviderItem>) -> bool {
    forall|k: int, l: int|
        0 <= k < l < out.len() ==> text_before((#[trigger] out[k]).name@, (#[trigger] out[l]).name@)
}

/// Whether each candidate of `out` is the first of its name in `items`.
pub open spec fn all_first(out: Seq<ProviderItem>, items: Seq<ProviderItem>) -> bool {
    forall|k: int|
        0 <= k < out.len() ==> exists|i: int|
            first_of_name(items, i) && (#[trigger] out[k])@ == (#[trigger] items[i])@
}

/// Whether `name` is the name of a candidate of `out`.
#[verifier::opaque]
pub open spec fn names(out: Seq<ProviderItem>, name: Seq<char>) -> bool {
    exists|k: int| 0 <= k < out.len() && (#[trigger] out[k]).name@ == name
}

/// Whether `out` is what is left of `items` when they are sorted by name
/// and each name is kept once: the names of `out` ascend strictly, each
/// candidate of `out` is the first of its name in `items`, and each name of
/// `items` is in `out`.
pub open spec fn is_aggregate(out: Seq<ProviderItem>, items: Seq<ProviderItem>) -> bool {
    &&& ascending(out)
    &&& all_first(out, items)
    &&& forall|i: int| 0 <= i < items.len() ==> names(out, (#[trigger] items[i]).name@)
}

/// Whether the texts of `list` ascend strictly.
pub open spec fn texts_ascend(list: Seq<Seq<char>>) -> bool {
    forall|k: int, l: int|
        0 <= k < l < list.len() ==> text_before(#[trigger] list[k], #[trigger] list[l])
}

/// Two strictly ascending lists of the same texts are the same list.
pub proof fn lemma_ascending_unique(a: Seq<Seq<char>>, b: Seq<Seq<char>>)
    requires
        texts_ascend(a),
        texts_ascend(b),
        forall|x: Seq<char>| a.contains(x) <==> b.contains(x),
    ensures
        a == b,
{
    let before = |x: Seq<char>, y: Seq<char>| text_before(x, y);
    assert(strictly_ordered(a, before)) by {
        assert forall|k: int, l: int| 0 <= k < l < a.len() implies before(
            #[trigger] a[k],
            #[trigger] a[l],
        ) by {
            assert(text_before(a[k], a[l]));
        }
    }
    assert(strictly_ordered(b, before)) by {
        assert forall|k: int, l: int| 0 <= k < l < b.len() implies before(
            #[trigger] b[k],
            #[trigger] b[l],
        ) by {
            assert(text_before(b[k], b[l]));
        }
    }
    assert forall|x: Seq<char>, y: Seq<char>| #[trigger] before(x, y) implies !before(y, x) by {
        lemma_text_order(x, y, x);
    }
    lemma_strict_order_unique(a, b, before);
}

/// The names of the candidates of `out`.
pub open spec fn names_of(out: Seq<ProviderItem>) -> Seq<Seq<char>> {
    out.map_values(|item: ProviderItem| item.name@)
}

/// The names of an ascending list of candidates ascend.
proof fn lemma_names_ascend(out: Seq<ProviderItem>)
    requires
        ascending(out),
    ensures
        texts_ascend(names_of(out)),
{
    let list = names_of(out);
    assert forall|k: int, l: int| 0 <= k < l < list.len() implies text_before(
        #[trigger] list[k],
        #[trigger] list[l],
    ) by {
        assert(text_before(out[k].name@, out[l].name@));
    }
}

/// A name of one aggregate is a name of every aggregate of the same candidates.
proof fn lemma_name_shared(
    a: Seq<ProviderItem>,
    b: Seq<ProviderItem>,
    items: Seq<ProviderItem>,
    x: Seq<char>,
)
    requires
        all_first(a, items),
        forall|i: int| 0 <= i < items.len() ==> names(b, (#[trigger] items[i]).name@),
        names_of(a).contains(x),
    ensures
        names_of(b).contains(x),
{
    reveal(names);
    let k = choose|k: int| 0 <= k < names_of(a).len() && names_of(a)[k] == x;
    let i = choose|i: int| first_of_name(items, i) && (#[trigger] a[k])@ == (#[trigger] items[i])@;
    assert(names(b, items[i].name@));
    let l = choose|l: int| 0 <= l < b.len() && (#[trigger] b[l]).name@ == x;
    assert(names_of(b)[l] == x);
}

/// Two candidates that are each the first of the same name are the same candidate.
proof fn lemma_first_is_one(a: ProviderItem, b: ProviderItem, items: Seq<ProviderItem>)
    requires
        a.name@ == b.name@,
        exists|i: int| first_of_name(items, i) && a@ == (#[trigger] items[i])@,
        exists|j: int| first_of_name(items, j) && b@ == (#[trigger] items[j])@,
    ensures
        a@ == b@,
{
    let i = choose|i: int| first_of_name(items, i) && a@ == (#[trigger] items[i])@;
    let j = choose|j: int| first_of_name(items, j) && b@ == (#[trigger] items[j])@;
    if i < j {
        assert(items[i].name@ != items[j].name@);
    } else if j < i {
        assert(items[j].name@ != items[i].name@);
    }
}

/// There is one aggregate only: whatever brings the same candidates
/// together by these rules arrives at the same candidates in the same order.
pub proof fn lemma_aggregate_unique(
    a: Seq<ProviderItem>,
    b: Seq<ProviderItem>,
    items: Seq<ProviderItem>,
)
    requires
        is_aggregate(a, items),
        is_aggregate(b, items),
    ensures
        item_views(a) == item_views(b),
{
    lemma_names_ascend(a);
    lemma_names_ascend(b);
    assert forall|x: Seq<char>| names_of(a).contains(x) <==> names_of(b).contains(x) by {
        if names_of(a).contains(x) {
            lemma_name_shared(a, b, items, x);
        }
        if names_of(b).contains(x) {
            lemma_name_shared(b, a, items, x);
        }
    }
    lemma_ascending_unique(names_of(a), names_of(b));
    assert(a.len() == names_of(a).len() && b.len() == names_of(b).len());
    assert forall|k: int| 0 <= k < a.len() implies (#[trigger] a[k])@ == b[k]@ by {
        assert(names_of(a)[k] == names_of(b)[k]);
        lemma_first_is_one(a[k], b[k], items);
    }
    assert(item_views(a) =~= item_views(b));
}

/// Bringing candidates together invents no names: if every candidate has a
/// name, every candidate of the aggregate has one.
pub proof fn lemma_aggregate_named(out: Seq<ProviderItem>, items: Seq<ProviderItem>)
    requires
        is_aggregate(out, items),
        forall|i: int| 0 <= i < items.len() ==> (#[trigger] items[i]).name@.len() > 0,
    ensures
        forall|k: int| 0 <= k < out.len() ==> (#[trigger] out[k]).name@.len() > 0,
{
    assert forall|k: int| 0 <= k < out.len() implies (#[trigger] out[k]).name@.len() > 0 by {
        let i = choose|i: int|
            first_of_name(items, i) && (#[trigger] out[k])@ == (#[trigger] items[i])@;
        assert(out[k]@.name == items[i]@.name);
    }
}

/// What has been kept after `k` of the sorted places have been seen.
spec fn kept_so_far(rule: &ByName, sorted: Seq<usize>, k: int, out: Seq<ProviderItem>) -> bool {
    &&& 0 <= k <= sorted.len()
    &&& k == 0 ==> out.len() == 0
    &&& k > 0 ==> out.len() > 0 && out.last().name@ == rule.items@[sorted[k - 1] as int].name@
    &&& ascending(out)
    &&& all_first(out, rule.items@)
    &&& forall|t: int| 0 <= t < k ==> names(out, rule.items@[(#[trigger] sorted[t]) as int].name@)
}

/// The places `0`, `1`, and so on, below `n`.
fn places(n: usize) -> (list: Vec<usize>)
    ensures
        list@.len() == n,
        forall|i: int| 0 <= i < n ==> (#[trigger] list@[i]) == i,
{
    let mut list: Vec<usize> = Vec::new();
    let mut i: usize = 0;
    while i < n
        invariant
            i <= n,
            list@.len() == i,
            forall|k: int| 0 <= k < i ==> (#[trigger] list@[k]) == k,
        decreases n - i,
    {
        list.push(i);
        i = i + 1;
    }
    list
}

/// Whether `sorted` lists every place of the rule's candidates, in the order of the rule.
spec fn sorted_places(rule: &ByName, sorted: Seq<usize>) -> bool {
    &&& crate::sorting::ordered(rule, sorted)
    &&& crate::sorting::all_admitted(rule, sorted)
    &&& forall|i: usize| i < rule.items@.len() ==> #[trigger] sorted.contains(i)
}

/// In a sorted list of places, a place at the start of a run of equal names
/// is the first of its name among the candidates.
proof fn lemma_run_start(rule: &ByName, sorted: Seq<usize>, k: int)
    requires
        sorted_places(rule, sorted),
        0 <= k < sorted.len(),
        k > 0 ==> rule.items@[sorted[k - 1] as int].name@ != rule.items@[sorted[k] as int].name@,
    ensures
        first_of_name(rule.items@, sorted[k] as int),
{
    let items = rule.items@;
    let here = sorted[k];
    assert(rule.admits(sorted[k]));
    assert forall|j: int| 0 <= j < here implies (#[trigger] items[j]).name@
        != items[here as int].name@ by {
        if items[j].name@ == items[here as int].name@ {
            assert(sorted.contains(j as usize));
            let m = choose|m: int| 0 <= m < sorted.len() && sorted[m] == j as usize;
            assert(rule.precedes(sorted[m], sorted[k]));
            if m > k {
                assert(!rule.precedes(sorted[m], sorted[k]));
            }
            assert(m < k);
            if m < k - 1 {
                let between = sorted[k - 1];
                assert(rule.admits(between));
                assert(!rule.precedes(sorted[k - 1], sorted[m]));
                assert(!rule.precedes(sorted[k], sorted[k - 1]));
                lemma_text_order(items[between as int].name@, items[here as int].name@, items[j].name@);
            }
        }
    }
}

/// Keeping the candidate at place `k` of the sorted places, where it starts
/// a run of equal names, goes on from what was kept before.
proof fn lemma_keep(
    rule: &ByName,
    sorted: Seq<usize>,
    k: int,
    before: Seq<ProviderItem>,
    added: ProviderItem,
)
    requires
        sorted_places(rule, sorted),
        kept_so_far(rule, sorted, k, before),
        k < sorted.len(),
        added@ == rule.items@[sorted[k] as int]@,
        k > 0 ==> rule.items@[sorted[k - 1] as int].name@ != rule.items@[sorted[k] as int].name@,
    ensures
        kept_so_far(rule, sorted, k + 1, before.push(added)),
{
    reveal(names);
    let items = rule.items@;
    let out = before.push(added);
    let here = sorted[k];
    lemma_run_start(rule, sorted, k);
    assert(out[before.len() as int] == added);
    assert(ascending(out)) by {
        assert forall|a: int, b: int| 0 <= a < b < out.len() implies text_before(
            (#[trigger] out[a]).name@,
            (#[trigger] out[b]).name@,
        ) by {
            assert(out[a] == before[a]);
            if b < before.len() {
                assert(out[b] == before[b]);
            } else {
                let last = before.last().name@;
                assert(rule.admits(sorted[k - 1]));
                assert(rule.admits(sorted[k]));
                assert(!rule.precedes(sorted[k], sorted[k - 1]));
                lemma_text_order(last, added.name@, before[a].name@);
                lemma_text_order(before[a].name@, last, added.name@);
            }
        }
    }
    assert(all_first(out, items)) by {
        assert forall|a: int| 0 <= a < out.len() implies exists|i: int|
            first_of_name(items, i) && (#[trigger] out[a])@ == (#[trigger] items[i])@ by {
            if a < before.len() {
                assert(out[a] == before[a]);
                let i = choose|i: int|
                    first_of_name(items, i) && (#[trigger] before[a])@ == (#[trigger] items[i])@;
                assert(first_of_name(items, i) && out[a]@ == items[i]@);
            } else {
                assert(first_of_name(items, here as int) && out[a]@ == items[here as int]@);
            }
        }
    }
    assert forall|t: int| 0 <= t < k + 1 implies names(
        out,
        items[(#[trigger] sorted[t]) as int].name@,
    ) by {
        if t < k {
            let a = choose|a: int|
                0 <= a < before.len() && (#[trigger] before[a]).name@ == items[sorted[t] as int].name@;
            assert(out[a] == before[a]);
        } else {
            assert(out[before.len() as int].name@ == items[sorted[t] as int].name@);
        }
    }
}

/// Passing over the candidate at place `k` of the sorted places, where it
/// has the name of the one before it, leaves what was kept as it is.
proof fn lemma_pass(rule: &ByName, sorted: Seq<usize>, k: int, out: Seq<ProviderItem>)
    requires
        kept_so_far(rule, sorted, k, out),
        0 < k < sorted.len(),
        rule.items@[sorted[k - 1] as int].name@ == rule.items@[sorted[k] as int].name@,
    ensures
        kept_so_far(rule, sorted, k + 1, out),
{
    reveal(names);
    let items = rule.items@;
    assert forall|t: int| 0 <= t < k + 1 implies names(
        out,
        items[(#[trigger] sorted[t]) as int].name@,
    ) by {
        if t == k {
            assert(out[out.len() - 1].name@ == items[sorted[t] as int].name@);
        }
    }
}

/// Once all sorted places have been seen, what was kept is the aggregate.
proof fn lemma_all_seen(rule: &ByName, sorted: Seq<usize>, out: Seq<ProviderItem>)
    requires
        sorted_places(rule, sorted),
        kept_so_far(rule, sorted, sorted.len() as int, out),
        rule.items@.len() <= usize::MAX,
    ensures
        is_aggregate(out, rule.items@),
{
    let items = rule.items@;
    assert forall|i: int| 0 <= i < items.len() implies names(out, (#[trigger] items[i]).name@) by {
        assert(sorted.contains(i as usize));
        let t = choose|t: int| 0 <= t < sorted.len() && sorted[t] == i as usize;
        assert(names(out, items[sorted[t] as int].name@));
    }
}

/// Sorts the candidates by name and keeps, of the candidates with one name,
/// the one that was enumerated first.
pub fn aggregate(items: &Vec<ProviderItem>) -> (out: Vec<ProviderItem>)
    ensures
        is_aggregate(out@, items@),
{
    let rule = ByName { items };
    let unsorted = places(items.len());
    let sorted = sort(&rule, &unsorted);
    proof {
        assert forall|x: usize| sorted@.contains(x) <==> unsorted@.contains(x) by {
            to_multiset_contains(sorted@, x);
            to_multiset_contains(unsorted@, x);
        }
        assert forall|i: usize| i < items@.len() implies #[trigger] sorted@.contains(i) by {
            assert(unsorted@[i as int] == i);
        }
        assert forall|k: int| 0 <= k < sorted@.len() implies rule.admits(#[trigger] sorted@[k]) by {
            assert(sorted@.contains(sorted@[k]));
            let p = choose|p: int| 0 <= p < unsorted@.len() && unsorted@[p] == sorted@[k];
        }
        assert(sorted_places(&rule, sorted@));
    }
    let mut out: Vec<ProviderItem> = Vec::new();
    let mut k: usize = 0;
    while k < sorted.len()
        invariant
            rule.items == items,
            sorted_places(&rule, sorted@),
            kept_so_far(&rule, sorted@, k as int, out@),
        decreases sorted@.len() - k,
    {
        let here = sorted[k];
        assert(rule.admits(sorted@[k as int]));
        if k > 0 {
            assert(rule.admits(sorted@[k - 1]));
        }
        let fresh = k == 0 || !str_eq(
            items[sorted[k - 1]].name.as_str(),
            items[here].name.as_str(),
        );
        if fresh {
            let item = items[here].clone();
            proof {
                lemma_keep(&rule, sorted@, k as int, out@, item);
            }
            out.push(item);
        } else {
            proof {
                lemma_pass(&rule, sorted@, k as int, out@);
            }
        }
        k = k + 1;
    }
    proof {
        assert(items@.len() == items.len());
        lemma_all_seen(&rule, sorted@, out@);
    }
    out
}

} // verus!
