//! A stable merge sort for any rule that says which of two elements must
//! come first.

use vstd::multiset::*;
use vstd::prelude::*;
use vstd::seq_lib::*;

verus! {

/// A rule of precedence among the elements that it admits.
pub trait Precedence<T> {
    /// Whether the rule can compare `a`.
    spec fn admits(&self, a: T) -> bool;

    /// Whether `a` must come before `b`.
    spec fn precedes(&self, a: T, b: T) -> bool;

    /// The rule is consistent: of two elements at most one must come before
    /// the other, and where neither `a` must come before `b` nor `b` before
    /// `c`, `a` need not come before `c` either.
    proof fn lemma_consistent(&self, a: T, b: T, c: T)
        requires
            self.admits(a),
            self.admits(b),
            self.admits(c),
        ensures
            self.precedes(a, b) ==> !self.precedes(b, a),
            !self.precedes(a, b) && !self.precedes(b, c) ==> !self.precedes(a, c),
    ;

    /// Decides whether `a` must come before `b`.
    fn comes_first(&self, a: T, b: T) -> (first: bool)
        requires
            self.admits(a),
            self.admits(b),
        ensures
            first == self.precedes(a, b),
    ;
}

/// Whether the rule admits every element of `s`.
pub open spec fn all_admitted<T, P: Precedence<T>>(rule: &P, s: Seq<T>) -> bool {
    forall|k: int| 0 <= k < s.len() ==> rule.admits(#[trigger] s[k])
}

/// Whether no element of `s` stands behind one that it must come before.
pub open spec fn ordered<T, P: Precedence<T>>(rule: &P, s: Seq<T>) -> bool {
    forall|k: int, l: int|
        0 <= k < l < s.len() ==> !rule.precedes(#[trigger] s[l], #[trigger] s[k])
}

/// Merges two ordered runs into one ordered run that holds the elements of
/// both. Where neither of two elements must come first, the one of `left`
/// comes first.
pub fn merge<T: Copy, P: Precedence<T>>(rule: &P, left: &Vec<T>, right: &Vec<T>) -> (out: Vec<T>)
    requires
        all_admitted(rule, left@),
        all_admitted(rule, right@),
        ordered(rule, left@),
        ordered(rule, right@),
    ensures
        ordered(rule, out@),
        out@.to_multiset() == left@.to_multiset().add(right@.to_multiset()),
{
    let mut out: Vec<T> = Vec::new();
    let mut i: usize = 0;
    let mut j: usize = 0;
    proof {
        assert(left@.take(0) =~= Seq::<T>::empty());
        assert(right@.take(0) =~= Seq::<T>::empty());
        assert(out@.to_multiset() =~= left@.take(0).to_multiset().add(
            right@.take(0).to_multiset(),
        )) by {
            broadcast use group_to_multiset_ensures;

            assert(Seq::<T>::empty().to_multiset().len() == 0);
        }
    }
    while i < left.len() || j < right.len()
        invariant
            i <= left@.len(),
            j <= right@.len(),
            all_admitted(rule, left@),
            all_admitted(rule, right@),
            ordered(rule, left@),
            ordered(rule, right@),
            ordered(rule, out@),
            out@.to_multiset() == left@.take(i as int).to_multiset().add(
                right@.take(j as int).to_multiset(),
            ),
            forall|k: int, p: int|
                0 <= k < out@.len() && i <= p < left@.len() ==> !rule.precedes(
                    #[trigger] left@[p],
                    #[trigger] out@[k],
                ),
            forall|k: int, q: int|
                0 <= k < out@.len() && j <= q < right@.len() ==> !rule.precedes(
                    #[trigger] right@[q],
                    #[trigger] out@[k],
                ),
        decreases left@.len() - i + right@.len() - j,
    {
        let take_left = if j >= right.len() {
            true
        } else if i >= left.len() {
            false
        } else {
            !rule.comes_first(right[j], left[i])
        };
        let ghost before = out@;
        if take_left {
            let item = left[i];
            out.push(item);
            proof {
                assert(left@.take(i + 1) =~= left@.take(i as int).push(item));
                to_multiset_build(left@.take(i as int), item);
                to_multiset_build(before, item);
                assert(out@.to_multiset() =~= left@.take(i + 1).to_multiset().add(
                    right@.take(j as int).to_multiset(),
                ));
                assert forall|k: int, l: int| 0 <= k < l < out@.len() implies !rule.precedes(
                    #[trigger] out@[l],
                    #[trigger] out@[k],
                ) by {
                    assert(out@[k] == before[k]);
                    if l < before.len() {
                        assert(out@[l] == before[l]);
                    } else {
                        assert(!rule.precedes(left@[i as int], before[k]));
                    }
                }
                assert forall|k: int, p: int|
                    0 <= k < out@.len() && i + 1 <= p < left@.len() implies !rule.precedes(
                    #[trigger] left@[p],
                    #[trigger] out@[k],
                ) by {
                    if k < before.len() {
                        assert(out@[k] == before[k]);
                    }
                }
                assert forall|k: int, q: int|
                    0 <= k < out@.len() && j <= q < right@.len() implies !rule.precedes(
                    #[trigger] right@[q],
                    #[trigger] out@[k],
                ) by {
                    if k < before.len() {
                        assert(out@[k] == before[k]);
                    } else {
                        assert(!rule.precedes(right@[j as int], item));
                        if q > j {
                            assert(!rule.precedes(right@[q], right@[j as int]));
                            rule.lemma_consistent(right@[q], right@[j as int], item);
                        }
                    }
                }
            }
            i = i + 1;
        } else {
            let item = right[j];
            out.push(item);
            proof {
                assert(right@.take(j + 1) =~= right@.take(j as int).push(item));
                to_multiset_build(right@.take(j as int), item);
                to_multiset_build(before, item);
                assert(out@.to_multiset() =~= left@.take(i as int).to_multiset().add(
                    right@.take(j + 1).to_multiset(),
                ));
                assert forall|k: int, l: int| 0 <= k < l < out@.len() implies !rule.precedes(
                    #[trigger] out@[l],
                    #[trigger] out@[k],
                ) by {
                    assert(out@[k] == before[k]);
                    if l < before.len() {
                        assert(out@[l] == before[l]);
                    } else {
                        assert(!rule.precedes(right@[j as int], before[k]));
                    }
                }
                assert forall|k: int, q: int|
                    0 <= k < out@.len() && j + 1 <= q < right@.len() implies !rule.precedes(
                    #[trigger] right@[q],
                    #[trigger] out@[k],
                ) by {
                    if k < before.len() {
                        assert(out@[k] == before[k]);
                    }
                }
                assert forall|k: int, p: int|
                    0 <= k < out@.len() && i <= p < left@.len() implies !rule.precedes(
                    #[trigger] left@[p],
                    #[trigger] out@[k],
                ) by {
                    if k < before.len() {
                        assert(out@[k] == before[k]);
                    } else {
                        assert(rule.precedes(item, left@[i as int]));
                        rule.lemma_consistent(item, left@[i as int], item);
                        if p > i {
                            assert(!rule.precedes(left@[p], left@[i as int]));
                            rule.lemma_consistent(left@[p], left@[i as int], item);
                        }
                    }
                }
            }
            j = j + 1;
        }
    }
    proof {
        assert(left@.take(left@.len() as int) =~= left@);
        assert(right@.take(right@.len() as int) =~= right@);
    }
    out
}

/// Sorts the part of `items` from `from` up to `to`.
fn sort_range<T: Copy, P: Precedence<T>>(rule: &P, items: &Vec<T>, from: usize, to: usize) -> (out:
    Vec<T>)
    requires
        from <= to <= items@.len(),
        all_admitted(rule, items@),
    ensures
        ordered(rule, out@),
        all_admitted(rule, out@),
        out@.to_multiset() == items@.subrange(from as int, to as int).to_multiset(),
    decreases to - from,
{
    let ghost part = items@.subrange(from as int, to as int);
    let out = if to - from <= 1 {
        let mut out: Vec<T> = Vec::new();
        if to - from == 1 {
            out.push(items[from]);
        }
        assert(out@ =~= part);
        out
    } else {
        let middle = from + (to - from) / 2;
        let left = sort_range(rule, items, from, middle);
        let right = sort_range(rule, items, middle, to);
        proof {
            assert(part =~= items@.subrange(from as int, middle as int) + items@.subrange(
                middle as int,
                to as int,
            ));
            lemma_multiset_commutative(
                items@.subrange(from as int, middle as int),
                items@.subrange(middle as int, to as int),
            );
        }
        merge(rule, &left, &right)
    };
    proof {
        assert forall|k: int| 0 <= k < out@.len() implies rule.admits(#[trigger] out@[k]) by {
            to_multiset_contains(out@, out@[k]);
            to_multiset_contains(part, out@[k]);
            assert(out@.contains(out@[k]));
            let p = choose|p: int| 0 <= p < part.len() && part[p] == out@[k];
            assert(part[p] == items@[from + p]);
        }
    }
    out
}

/// Sorts `items` by the rule: the result holds the same elements, each as
/// often as `items` does, and none stands behind one that it must come
/// before.
pub fn sort<T: Copy, P: Precedence<T>>(rule: &P, items: &Vec<T>) -> (out: Vec<T>)
    requires
        all_admitted(rule, items@),
    ensures
        ordered(rule, out@),
        out@.to_multiset() == items@.to_multiset(),
{
    assert(items@.subrange(0, items@.len() as int) =~= items@);
    sort_range(rule, items, 0, items.len())
}

/// Whether each element of `s` stands in the relation `before` to all that
/// follow it.
pub open spec fn strictly_ordered<T>(s: Seq<T>, before: spec_fn(T, T) -> bool) -> bool {
    forall|k: int, l: int| 0 <= k < l < s.len() ==> before(#[trigger] s[k], #[trigger] s[l])
}

/// Under a relation that never holds both ways, two strictly ordered lists
/// of the same elements are the same list.
pub proof fn lemma_strict_order_unique<T>(a: Seq<T>, b: Seq<T>, before: spec_fn(T, T) -> bool)
    requires
        strictly_ordered(a, before),
        strictly_ordered(b, before),
        forall|x: T| a.contains(x) <==> b.contains(x),
        forall|x: T, y: T| #[trigger] before(x, y) ==> !before(y, x),
    ensures
        a == b,
    decreases a.len(),
{
    if a.len() == 0 {
        if b.len() > 0 {
            assert(b.contains(b[0]));
        }
        assert(a =~= b);
    } else {
        assert(a.contains(a[0]));
        assert(b.contains(a[0]));
        let j = choose|j: int| 0 <= j < b.len() && b[j] == a[0];
        assert(b.contains(b[0]));
        assert(a.contains(b[0]));
        let i = choose|i: int| 0 <= i < a.len() && a[i] == b[0];
        if j > 0 {
            assert(before(b[0], b[j]));
            if i > 0 {
                assert(before(a[0], a[i]));
            }
            assert(false);
        }
        let a_rest = a.drop_first();
        let b_rest = b.drop_first();
        assert(strictly_ordered(a_rest, before)) by {
            assert forall|k: int, l: int| 0 <= k < l < a_rest.len() implies before(
                #[trigger] a_rest[k],
                #[trigger] a_rest[l],
            ) by {
                assert(a_rest[k] == a[k + 1] && a_rest[l] == a[l + 1]);
            }
        }
        assert(strictly_ordered(b_rest, before)) by {
            assert forall|k: int, l: int| 0 <= k < l < b_rest.len() implies before(
                #[trigger] b_rest[k],
                #[trigger] b_rest[l],
            ) by {
                assert(b_rest[k] == b[k + 1] && b_rest[l] == b[l + 1]);
            }
        }
        assert forall|x: T| a_rest.contains(x) <==> b_rest.contains(x) by {
            if a_rest.contains(x) {
                let p = choose|p: int| 0 <= p < a_rest.len() && a_rest[p] == x;
                assert(a[p + 1] == x);
                assert(before(a[0], a[p + 1]));
                assert(a.contains(x));
                let q = choose|q: int| 0 <= q < b.len() && b[q] == x;
                assert(q > 0);
                assert(b_rest[q - 1] == x);
            }
            if b_rest.contains(x) {
                let p = choose|p: int| 0 <= p < b_rest.len() && b_rest[p] == x;
                assert(b[p + 1] == x);
                assert(before(b[0], b[p + 1]));
                assert(b.contains(x));
                let q = choose|q: int| 0 <= q < a.len() && a[q] == x;
                assert(q > 0);
                assert(a_rest[q - 1] == x);
            }
        }
        lemma_strict_order_unique(a_rest, b_rest, before);
        assert(a =~= seq![a[0]] + a_rest);
        assert(b =~= seq![b[0]] + b_rest);
    }
}

} // verus!
