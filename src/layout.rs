use vstd::prelude::*;

use crate::activity::{declared_window, keys_of, rule_matches, ActivityId, ActivityKey, ActivityMatch};
use crate::config::{names_of, DynamicLayoutConfig, DynamicLayoutConfigMain};
use crate::cycle_order::{lemma_remove_unique, rotated_backward, rotated_forward, CycleOrder};

verus! {

/// The activities of `ids` that `rule` picks, then, recursively, those of the
/// rest that the next rules pick; those that no rule picks come last.
pub open spec fn sorted_by_rules(rules: Seq<ActivityMatch>, ids: Seq<ActivityKey>) -> Seq<
    ActivityKey,
>
    decreases rules.len(),
{
    if rules.len() == 0 {
        ids
    } else {
        ids.filter(|k: ActivityKey| rule_matches(rules[0], k)) + sorted_by_rules(
            rules.drop_first(),
            ids.filter(|k: ActivityKey| !rule_matches(rules[0], k)),
        )
    }
}

/// Splitting a sequence by a predicate keeps each element, as often as before.
pub proof fn lemma_filter_split<A>(s: Seq<A>, p: spec_fn(A) -> bool)
    ensures
        s.filter(p).to_multiset().add(s.filter(|x: A| !p(x)).to_multiset()) == s.to_multiset(),
    decreases s.len(),
{
    broadcast use vstd::multiset::group_multiset_axioms;
    broadcast use vstd::seq_lib::group_to_multiset_ensures;

    let q = |x: A| !p(x);
    reveal(Seq::filter);
    if s.len() == 0 {
        assert(s.filter(p) =~= Seq::<A>::empty());
        assert(s.filter(q) =~= Seq::<A>::empty());
        assert(s.filter(p).to_multiset().add(s.filter(q).to_multiset()) =~= s.to_multiset());
    } else {
        let init = s.drop_last();
        lemma_filter_split(init, p);
        assert(init.filter(q) == init.filter(|x: A| !p(x)));
        assert(s =~= init.push(s.last()));
        assert(s.filter(p).to_multiset().add(s.filter(q).to_multiset()) =~= s.to_multiset());
    }
}

/// Sorting by rules keeps each activity, as often as before.
pub proof fn lemma_sorted_keeps_entries(rules: Seq<ActivityMatch>, ids: Seq<ActivityKey>)
    ensures
        sorted_by_rules(rules, ids).to_multiset() == ids.to_multiset(),
    decreases rules.len(),
{
    broadcast use vstd::multiset::group_multiset_axioms;

    if rules.len() > 0 {
        let p = |k: ActivityKey| rule_matches(rules[0], k);
        let left = ids.filter(|k: ActivityKey| !rule_matches(rules[0], k));
        lemma_sorted_keeps_entries(rules.drop_first(), left);
        lemma_filter_split(ids, p);
        assert((|x: ActivityKey| !p(x)) =~= (|k: ActivityKey| !rule_matches(rules[0], k)));
        assert(ids.filter(|x: ActivityKey| !p(x)) == left);
        vstd::seq_lib::lemma_multiset_commutative(
            ids.filter(p),
            sorted_by_rules(rules.drop_first(), left),
        );
        assert(ids.filter(p) == ids.filter(|k: ActivityKey| rule_matches(rules[0], k)));
    }
}

/// Filtering a sequence by a predicate that all of it meets keeps all of it.
pub proof fn lemma_filter_all<A>(s: Seq<A>, p: spec_fn(A) -> bool)
    requires
        forall|x: A| s.contains(x) ==> p(x),
    ensures
        s.filter(p) == s,
    decreases s.len(),
{
    reveal(Seq::filter);
    if s.len() > 0 {
        let init = s.drop_last();
        assert forall|x: A| init.contains(x) implies p(x) by {
            let m = choose|m: int| 0 <= m < init.len() && init[m] == x;
            assert(init.len() == s.len() - 1);
            assert(init[m] == s[m]);
            assert(s.contains(x));
        }
        lemma_filter_all(init, p);
        assert(s.contains(s.last()));
        assert(s =~= init.push(s.last()));
    }
}

/// Filtering a sequence by a predicate that none of it meets leaves nothing.
pub proof fn lemma_filter_none<A>(s: Seq<A>, p: spec_fn(A) -> bool)
    requires
        forall|x: A| s.contains(x) ==> !p(x),
    ensures
        s.filter(p) == Seq::<A>::empty(),
    decreases s.len(),
{
    reveal(Seq::filter);
    if s.len() > 0 {
        let init = s.drop_last();
        assert forall|x: A| init.contains(x) implies !p(x) by {
            let m = choose|m: int| 0 <= m < init.len() && init[m] == x;
            assert(init.len() == s.len() - 1);
            assert(init[m] == s[m]);
            assert(s.contains(x));
        }
        lemma_filter_none(init, p);
        assert(s.contains(s.last()));
    } else {
        assert(s.filter(p) =~= Seq::<A>::empty());
    }
}

/// Sorting by rules a second time changes nothing.
pub proof fn lemma_sorted_idempotent(rules: Seq<ActivityMatch>, ids: Seq<ActivityKey>)
    ensures
        sorted_by_rules(rules, sorted_by_rules(rules, ids)) == sorted_by_rules(rules, ids),
    decreases rules.len(),
{
    if rules.len() > 0 {
        let p = |k: ActivityKey| rule_matches(rules[0], k);
        let q = |k: ActivityKey| !rule_matches(rules[0], k);
        let a = ids.filter(p);
        let z = ids.filter(q);
        let b = sorted_by_rules(rules.drop_first(), z);
        let y = sorted_by_rules(rules, ids);
        assert(y == a + b);
        ids.filter_lemma(p);
        z.filter_lemma(q);
        ids.filter_lemma(q);
        assert forall|x: ActivityKey| a.contains(x) implies p(x) by {
            let m = choose|m: int| 0 <= m < a.len() && a[m] == x;
        }
        assert forall|x: ActivityKey| a.contains(x) implies !q(x) by {
            let m = choose|m: int| 0 <= m < a.len() && a[m] == x;
        }
        lemma_sorted_keeps_entries(rules.drop_first(), z);
        assert forall|x: ActivityKey| b.contains(x) implies !p(x) by {
            vstd::seq_lib::to_multiset_contains(b, x);
            vstd::seq_lib::to_multiset_contains(z, x);
            let m = choose|m: int| 0 <= m < z.len() && z[m] == x;
        }
        assert forall|x: ActivityKey| b.contains(x) implies q(x) by {
            vstd::seq_lib::to_multiset_contains(b, x);
            vstd::seq_lib::to_multiset_contains(z, x);
            let m = choose|m: int| 0 <= m < z.len() && z[m] == x;
        }
        lemma_filter_all(a, p);
        lemma_filter_none(a, q);
        lemma_filter_none(b, p);
        lemma_filter_all(b, q);
        Seq::filter_distributes_over_add(a, b, p);
        Seq::filter_distributes_over_add(a, b, q);
        assert(y.filter(p) =~= a);
        assert(y.filter(q) =~= b);
        lemma_sorted_idempotent(rules.drop_first(), z);
        assert(sorted_by_rules(rules, y) == y.filter(p) + sorted_by_rules(rules.drop_first(), y.filter(q)));
    }
}

/// The activities of `ids` that `rule` picks, and the others, each in order.
fn split_by_rule(rule: &ActivityMatch, ids: &Vec<ActivityId>) -> (r: (
    Vec<ActivityId>,
    Vec<ActivityId>,
))
    ensures
        keys_of(r.0@) == keys_of(ids@).filter(|k: ActivityKey| rule_matches(*rule, k)),
        keys_of(r.1@) == keys_of(ids@).filter(|k: ActivityKey| !rule_matches(*rule, k)),
{
    let ghost p = |k: ActivityKey| rule_matches(*rule, k);
    let ghost q = |k: ActivityKey| !rule_matches(*rule, k);
    let mut picked: Vec<ActivityId> = Vec::new();
    let mut left: Vec<ActivityId> = Vec::new();
    let mut i: usize = 0;
    while i < ids.len()
        invariant
            i <= ids@.len(),
            p == (|k: ActivityKey| rule_matches(*rule, k)),
            q == (|k: ActivityKey| !rule_matches(*rule, k)),
            keys_of(picked@) == keys_of(ids@).subrange(0, i as int).filter(p),
            keys_of(left@) == keys_of(ids@).subrange(0, i as int).filter(q),
        decreases ids@.len() - i,
    {
        let ghost picked0 = picked@;
        let ghost left0 = left@;
        let ghost cur = keys_of(ids@).subrange(0, i + 1);
        let hit = rule.contains(&ids[i]);
        if hit {
            picked.push(ids[i].clone_id());
        } else {
            left.push(ids[i].clone_id());
        }
        proof {
            reveal(Seq::filter);
            assert(cur.drop_last() =~= keys_of(ids@).subrange(0, i as int));
            assert(cur.last() == ids@[i as int]@);
            if hit {
                assert(keys_of(picked@) =~= keys_of(picked0).push(ids@[i as int]@));
                assert(keys_of(left@) =~= keys_of(left0));
            } else {
                assert(keys_of(left@) =~= keys_of(left0).push(ids@[i as int]@));
                assert(keys_of(picked@) =~= keys_of(picked0));
            }
        }
        i += 1;
    }
    proof {
        assert(keys_of(ids@).subrange(0, ids@.len() as int) =~= keys_of(ids@));
    }
    (picked, left)
}

/// Puts the activities of `order` in the order of the rules of `config`:
/// first those that the first rule picks, and so on; those that no rule picks
/// come last. Each group keeps the order it had.
pub fn update_activity_order<W>(order: &mut CycleOrder<W>, config: &DynamicLayoutConfig)
    requires
        old(order).wf(),
    ensures
        final(order).wf(),
        final(order).ring() == sorted_by_rules(config.activity_order@, old(order).ring()),
        final(order).widget_map == old(order).widget_map,
        final(order).active == old(order).active,
        final(order).active_offset == old(order).active_offset,
        final(order).max_shown == old(order).max_shown,
        final(order).max_active == old(order).max_active,
{
    let ghost rules = config.activity_order@;
    let mut rest = order.list_activities();
    let mut sorted: Vec<ActivityId> = Vec::new();
    let mut i: usize = 0;
    proof {
        assert(keys_of(sorted@) =~= Seq::<ActivityKey>::empty());
        assert(rules.subrange(0, rules.len() as int) =~= rules);
        assert(Seq::<ActivityKey>::empty() + sorted_by_rules(rules, keys_of(rest@)) =~= sorted_by_rules(rules, keys_of(rest@)));
    }
    while i < config.activity_order.len()
        invariant
            i <= rules.len(),
            rules == config.activity_order@,
            keys_of(sorted@) + sorted_by_rules(rules.subrange(i as int, rules.len() as int), keys_of(rest@))
                == sorted_by_rules(rules, old(order).ring()),
        decreases rules.len() - i,
    {
        let ghost sorted0 = sorted@;
        let ghost rest0 = rest@;
        let (mut picked, left) = split_by_rule(&config.activity_order[i], &rest);
        let ghost picked0 = picked@;
        sorted.append(&mut picked);
        rest = left;
        proof {
            let tail = rules.subrange(i as int, rules.len() as int);
            assert(tail[0] == rules[i as int]);
            assert(tail.drop_first() =~= rules.subrange(i + 1, rules.len() as int));
            assert(keys_of(sorted@) =~= keys_of(sorted0) + keys_of(picked0));
            assert(sorted_by_rules(tail, keys_of(rest0)) == keys_of(picked0) + sorted_by_rules(
                tail.drop_first(),
                keys_of(rest@),
            ));
            assert(keys_of(sorted0) + keys_of(picked0) + sorted_by_rules(
                tail.drop_first(),
                keys_of(rest@),
            ) =~= keys_of(sorted0) + (keys_of(picked0) + sorted_by_rules(
                tail.drop_first(),
                keys_of(rest@),
            )));
        }
        i += 1;
    }
    let ghost sorted0 = sorted@;
    let ghost rest0 = rest@;
    sorted.append(&mut rest);
    proof {
        assert(rules.subrange(rules.len() as int, rules.len() as int) =~= Seq::<
            ActivityMatch,
        >::empty());
        assert(keys_of(sorted@) =~= keys_of(sorted0) + keys_of(rest0));
        assert(keys_of(sorted@) == sorted_by_rules(rules, old(order).ring()));
        lemma_sorted_keeps_entries(rules, old(order).ring());
    }
    order.update_order(sorted);
}

/// After `add`, the ring holds what it held before, and `k`.
pub proof fn lemma_ring_after_add(before: Seq<ActivityKey>, after: Seq<ActivityKey>, k: ActivityKey)
    requires
        before.contains(k) ==> after == before,
        !before.contains(k) ==> after == before.push(k),
    ensures
        after.to_set() == before.to_set().insert(k),
{
    assert forall|x: ActivityKey| after.contains(x) <==> (before.contains(x) || x == k) by {
        if !before.contains(k) {
            if after.contains(x) && x != k {
                let m = choose|m: int| 0 <= m < after.len() && after[m] == x;
                assert(before[m] == x);
            }
            if before.contains(x) {
                let m = choose|m: int| 0 <= m < before.len() && before[m] == x;
                assert(after[m] == x);
            }
            if x == k {
                assert(after[before.len() as int] == x);
            }
        }
    }
    assert(after.to_set() =~= before.to_set().insert(k));
}

/// Two sequences without duplicates and with no element in common make one
/// without duplicates.
pub proof fn lemma_concat_unique<A>(a: Seq<A>, b: Seq<A>)
    requires
        a.no_duplicates(),
        b.no_duplicates(),
        forall|k: A| a.contains(k) ==> !b.contains(k),
    ensures
        (a + b).no_duplicates(),
{
    let c = a + b;
    assert forall|p: int, q: int| 0 <= p < c.len() && 0 <= q < c.len() && p != q implies c[p] != c[q] by {
        if p < a.len() && q >= a.len() {
            assert(a.contains(c[p]));
            assert(b[q - a.len()] == c[q]);
        } else if q < a.len() && p >= a.len() {
            assert(a.contains(c[q]));
            assert(b[p - a.len()] == c[p]);
        } else if p >= a.len() {
            assert(b[p - a.len()] == c[p] && b[q - a.len()] == c[q]);
        }
    }
}

/// Membership in a sequence whose set gained one element.
pub proof fn lemma_set_insert_contains<A>(a: Seq<A>, b: Seq<A>, x: A)
    requires
        b.to_set() == a.to_set().insert(x),
    ensures
        forall|k: A| b.contains(k) <==> (a.contains(k) || k == x),
{
    assert forall|k: A| b.contains(k) <==> (a.contains(k) || k == x) by {
        assert(b.to_set().contains(k) == b.contains(k));
        assert(a.to_set().contains(k) == a.contains(k));
    }
}

/// Whether no activity is held by two rings of `ms`.
pub open spec fn no_shared_in<W>(ms: Seq<(String, CycleOrder<W>)>) -> bool {
    forall|i: int, j: int, k: ActivityKey|
        #![trigger ms[i].1.ring().contains(k), ms[j].1.ring().contains(k)]
        0 <= i < ms.len() && 0 <= j < ms.len() && i != j && ms[i].1.ring().contains(k)
            ==> !ms[j].1.ring().contains(k)
}

/// Dropping a window keeps rings from sharing, and what it held is held by no
/// other.
pub proof fn lemma_no_shared_remove<W>(ms: Seq<(String, CycleOrder<W>)>, i: int)
    requires
        no_shared_in(ms),
        0 <= i < ms.len(),
    ensures
        no_shared_in(ms.remove(i)),
        forall|k: ActivityKey| ms[i].1.ring().contains(k) ==> !holds_in(ms.remove(i), k),
{
    let r = ms.remove(i);
    assert forall|a: int, b: int, k: ActivityKey|
        0 <= a < r.len() && 0 <= b < r.len() && a != b && r[a].1.ring().contains(k)
            implies !r[b].1.ring().contains(k) by {
        let a0 = if a < i { a } else { a + 1 };
        let b0 = if b < i { b } else { b + 1 };
        assert(r[a] == ms[a0]);
        assert(r[b] == ms[b0]);
        assert(ms[a0].1.ring().contains(k));
    }
    assert forall|k: ActivityKey| ms[i].1.ring().contains(k) implies !holds_in(r, k) by {
        if holds_in(r, k) {
            let a = choose|a: int| 0 <= a < r.len() && (#[trigger] r[a]).1.ring().contains(k);
            let a0 = if a < i { a } else { a + 1 };
            assert(r[a] == ms[a0]);
            assert(ms[a0].1.ring().contains(k));
        }
    }
}

/// Adding a window with an empty ring keeps rings from sharing.
pub proof fn lemma_no_shared_push<W>(ms: Seq<(String, CycleOrder<W>)>, e: (String, CycleOrder<W>))
    requires
        no_shared_in(ms),
        e.1.ring().len() == 0,
    ensures
        no_shared_in(ms.push(e)),
{
    let r = ms.push(e);
    assert forall|p: int, q: int, k: ActivityKey|
        0 <= p < r.len() && 0 <= q < r.len() && p != q && r[p].1.ring().contains(k)
            implies !r[q].1.ring().contains(k) by {
        if p < ms.len() {
            assert(r[p] == ms[p]);
        }
        if q < ms.len() {
            assert(r[q] == ms[q]);
        }
        assert(p < ms.len());
        if q < ms.len() {
            assert(ms[p].1.ring().contains(k));
        }
    }
}

/// Adding to one ring an activity that no ring holds keeps rings from sharing.
pub proof fn lemma_no_shared_insert<W>(a: Seq<(String, CycleOrder<W>)>, b: Seq<(String, CycleOrder<W>)>, i: int, x: ActivityKey)
    requires
        no_shared_in(a),
        !holds_in(a, x),
        0 <= i < a.len(),
        b.len() == a.len(),
        forall|j: int| 0 <= j < a.len() && j != i ==> #[trigger] b[j] == a[j],
        forall|k: ActivityKey| b[i].1.ring().contains(k) ==> (a[i].1.ring().contains(k) || k == x),
    ensures
        no_shared_in(b),
{
    assert forall|p: int, q: int, k: ActivityKey|
        0 <= p < b.len() && 0 <= q < b.len() && p != q && b[p].1.ring().contains(k)
            implies !b[q].1.ring().contains(k) by {
        if p != i {
            assert(b[p] == a[p]);
        }
        if q != i {
            assert(b[q] == a[q]);
        }
        if b[q].1.ring().contains(k) {
            if p == i {
                if k == x {
                    assert(a[q].1.ring().contains(k));
                } else {
                    assert(a[i].1.ring().contains(k));
                }
            } else if q == i {
                if k == x {
                    assert(a[p].1.ring().contains(k));
                } else {
                    assert(a[i].1.ring().contains(k));
                }
            } else {
                assert(a[p].1.ring().contains(k));
            }
        }
    }
}

/// Taking activities out of one ring keeps rings from sharing.
pub proof fn lemma_no_shared_shrink<W>(a: Seq<(String, CycleOrder<W>)>, b: Seq<(String, CycleOrder<W>)>, i: int)
    requires
        no_shared_in(a),
        0 <= i < a.len(),
        b.len() == a.len(),
        forall|j: int| 0 <= j < a.len() && j != i ==> #[trigger] b[j] == a[j],
        forall|k: ActivityKey| b[i].1.ring().contains(k) ==> a[i].1.ring().contains(k),
    ensures
        no_shared_in(b),
{
    assert forall|p: int, q: int, k: ActivityKey|
        0 <= p < b.len() && 0 <= q < b.len() && p != q && b[p].1.ring().contains(k)
            implies !b[q].1.ring().contains(k) by {
        if p != i {
            assert(b[p] == a[p]);
        }
        if q != i {
            assert(b[q] == a[q]);
        }
        assert(a[p].1.ring().contains(k));
    }
}

/// Whether one of the rings of `ms` holds `k`.
pub open spec fn holds_in<W>(ms: Seq<(String, CycleOrder<W>)>, k: ActivityKey) -> bool {
    exists|i: int| 0 <= i < ms.len() && (#[trigger] ms[i]).1.ring().contains(k)
}

/// The identities of the activities of `entries`.
pub open spec fn entry_keys<W>(entries: Seq<(ActivityId, W)>) -> Seq<ActivityKey> {
    entries.map_values(|e: (ActivityId, W)| e.0@)
}

/// Removing a window of `ms` drops just what its ring held.
pub proof fn lemma_holds_in_remove<W>(ms: Seq<(String, CycleOrder<W>)>, i: int, k: ActivityKey)
    requires
        0 <= i < ms.len(),
    ensures
        holds_in(ms, k) <==> (holds_in(ms.remove(i), k) || ms[i].1.ring().contains(k)),
{
    let r = ms.remove(i);
    if holds_in(ms, k) && !ms[i].1.ring().contains(k) {
        let j = choose|j: int| 0 <= j < ms.len() && (#[trigger] ms[j]).1.ring().contains(k);
        if j < i {
            assert(r[j] == ms[j]);
        } else {
            assert(r[j - 1] == ms[j]);
        }
    }
    if holds_in(r, k) {
        let j = choose|j: int| 0 <= j < r.len() && (#[trigger] r[j]).1.ring().contains(k);
        if j < i {
            assert(r[j] == ms[j]);
        } else {
            assert(r[j] == ms[j + 1]);
        }
    }
}

/// Adding a window to `ms` adds what its ring holds.
pub proof fn lemma_holds_in_push<W>(ms: Seq<(String, CycleOrder<W>)>, e: (String, CycleOrder<W>), k: ActivityKey)
    ensures
        holds_in(ms.push(e), k) <==> (holds_in(ms, k) || e.1.ring().contains(k)),
{
    let r = ms.push(e);
    if holds_in(ms, k) {
        let j = choose|j: int| 0 <= j < ms.len() && (#[trigger] ms[j]).1.ring().contains(k);
        assert(r[j] == ms[j]);
    }
    if e.1.ring().contains(k) {
        assert(r[ms.len() as int] == e);
    }
    if holds_in(r, k) {
        let j = choose|j: int| 0 <= j < r.len() && (#[trigger] r[j]).1.ring().contains(k);
        if j < ms.len() {
            assert(r[j] == ms[j]);
        }
    }
}

/// Where one ring of `a` gained `x` (or already had it) and the others stay,
/// the activities held are those of `a` and `x`.
pub proof fn lemma_holds_in_insert<W>(a: Seq<(String, CycleOrder<W>)>, b: Seq<(String, CycleOrder<W>)>, i: int, x: ActivityKey)
    requires
        0 <= i < a.len(),
        b.len() == a.len(),
        forall|j: int| 0 <= j < a.len() && j != i ==> #[trigger] b[j] == a[j],
        b[i].1.ring().to_set() == a[i].1.ring().to_set().insert(x),
    ensures
        forall|k: ActivityKey| holds_in(b, k) <==> (holds_in(a, k) || k == x),
{
    assert forall|k: ActivityKey| holds_in(b, k) <==> (holds_in(a, k) || k == x) by {
        assert(b[i].1.ring().to_set().contains(k) <==> (a[i].1.ring().to_set().contains(k) || k == x));
        if holds_in(a, k) {
            let j = choose|j: int| 0 <= j < a.len() && (#[trigger] a[j]).1.ring().contains(k);
            if j != i {
                assert(b[j] == a[j]);
            } else {
                assert(b[i].1.ring().contains(k));
            }
        }
        if k == x {
            assert(b[i].1.ring().contains(k));
        }
        if holds_in(b, k) {
            let j = choose|j: int| 0 <= j < b.len() && (#[trigger] b[j]).1.ring().contains(k);
            if j != i {
                assert(b[j] == a[j]);
            } else {
                assert(a[i].1.ring().contains(k) || k == x);
            }
        }
    }
}

/// Where one ring of `a` lost `x` and the others stay, every other activity is
/// held as before.
pub proof fn lemma_holds_in_remove_key<W>(a: Seq<(String, CycleOrder<W>)>, b: Seq<(String, CycleOrder<W>)>, i: int, x: ActivityKey)
    requires
        0 <= i < a.len(),
        b.len() == a.len(),
        forall|j: int| 0 <= j < a.len() && j != i ==> #[trigger] b[j] == a[j],
        b[i].1.ring().to_set() == a[i].1.ring().to_set().remove(x),
    ensures
        forall|k: ActivityKey| k != x ==> (holds_in(b, k) <==> holds_in(a, k)),
{
    assert forall|k: ActivityKey| k != x implies (holds_in(b, k) <==> holds_in(a, k)) by {
        assert(b[i].1.ring().to_set().contains(k) <==> a[i].1.ring().to_set().contains(k));
        if holds_in(a, k) {
            let j = choose|j: int| 0 <= j < a.len() && (#[trigger] a[j]).1.ring().contains(k);
            if j != i {
                assert(b[j] == a[j]);
            } else {
                assert(b[i].1.ring().contains(k));
            }
        }
        if holds_in(b, k) {
            let j = choose|j: int| 0 <= j < b.len() && (#[trigger] b[j]).1.ring().contains(k);
            if j != i {
                assert(b[j] == a[j]);
            } else {
                assert(a[i].1.ring().contains(k));
            }
        }
    }
}

/// Where one ring of `a` was rearranged and the others stay, the same
/// activities are held.
pub proof fn lemma_holds_in_same<W>(a: Seq<(String, CycleOrder<W>)>, b: Seq<(String, CycleOrder<W>)>, i: int)
    requires
        0 <= i < a.len(),
        b.len() == a.len(),
        forall|j: int| 0 <= j < a.len() && j != i ==> #[trigger] b[j] == a[j],
        forall|k: ActivityKey| b[i].1.ring().contains(k) <==> a[i].1.ring().contains(k),
    ensures
        forall|k: ActivityKey| holds_in(b, k) <==> holds_in(a, k),
{
    assert forall|k: ActivityKey| holds_in(b, k) <==> holds_in(a, k) by {
        if holds_in(a, k) {
            let j = choose|j: int| 0 <= j < a.len() && (#[trigger] a[j]).1.ring().contains(k);
            if j != i {
                assert(b[j] == a[j]);
            } else {
                assert(b[i].1.ring().contains(k));
            }
        }
        if holds_in(b, k) {
            let j = choose|j: int| 0 <= j < b.len() && (#[trigger] b[j]).1.ring().contains(k);
            if j != i {
                assert(b[j] == a[j]);
            } else {
                assert(a[i].1.ring().contains(k));
            }
        }
    }
}

/// Whether `id`, held by the window `name`, asks for another window that
/// `config` configures.
pub open spec fn misrouted_entry(id: ActivityId, name: Seq<char>, config: DynamicLayoutConfigMain) -> bool {
    match id.window {
        Some(w) => w@ != name && config.has_window(w@),
        None => false,
    }
}

/// Whether `id` is the activity of one of the first `bound` entries of the
/// widget map of `e`.
pub open spec fn is_entry_of<W>(e: CycleOrder<W>, bound: int, id: ActivityId) -> bool {
    exists|q: int| 0 <= q < bound && e.widget_map@[q].0 == id
}

/// Takes out of `engine`, the ring of the window `name`, every activity that
/// asks for another window that `config` configures, and hands them out with
/// their widgets.
fn take_misrouted<W>(engine: &mut CycleOrder<W>, name: &String, config: &DynamicLayoutConfigMain) -> (r: Vec<(ActivityId, W)>)
    requires
        old(engine).wf(),
    ensures
        final(engine).wf(),
        forall|j: int| 0 <= j < final(engine).widget_map@.len() ==> !misrouted_entry(
            (#[trigger] final(engine).widget_map@[j]).0,
            name@,
            *config,
        ),
        forall|m: int| 0 <= m < r@.len() ==> misrouted_entry((#[trigger] r@[m]).0, name@, *config),
        forall|k: ActivityKey| final(engine).ring().contains(k) || entry_keys(r@).contains(k) <==> old(engine).ring().contains(k),
        forall|q: int|
            0 <= q < old(engine).widget_map@.len() && !misrouted_entry(
                (#[trigger] old(engine).widget_map@[q]).0,
                name@,
                *config,
            ) ==> final(engine).ring().contains(old(engine).widget_map@[q].0@),
        entry_keys(r@).no_duplicates(),
        forall|k: ActivityKey| entry_keys(r@).contains(k) ==> !final(engine).ring().contains(k),
{
    let mut ids: Vec<ActivityId> = Vec::new();
    let mut j: usize = 0;
    while j < engine.widget_map.len()
        invariant
            engine.wf(),
            j <= engine.widget_map@.len(),
            forall|m: int| 0 <= m < ids@.len() ==> misrouted_entry(#[trigger] ids@[m], name@, *config),
            forall|m: int| 0 <= m < ids@.len() ==> engine.ring().contains((#[trigger] ids@[m])@),
            forall|q: int| 0 <= q < j && misrouted_entry((#[trigger] engine.widget_map@[q]).0, name@, *config)
                ==> keys_of(ids@).contains(engine.widget_map@[q].0@),
            forall|m: int| 0 <= m < ids@.len() ==> is_entry_of(*engine, j as int, #[trigger] ids@[m]),
            *engine == *old(engine),
        decreases engine.widget_map@.len() - j,
    {
        let ghost ids0 = ids@;
        let id = &engine.widget_map[j].0;
        let mut hit = false;
        if let Some(desired) = &id.window {
            if *desired != *name {
                let found = config.window_index(desired.as_str());
                proof {
                    if let Some(x) = found {
                        assert(names_of(config.windows@)[x as int] == desired@);
                    }
                }
                hit = found.is_some();
            }
        }
        if hit {
            ids.push(id.clone_id());
            proof {
                assert forall|m: int| 0 <= m < ids@.len() implies is_entry_of(*engine, j + 1, #[trigger] ids@[m]) by {
                    if m == ids0.len() {
                        assert(engine.widget_map@[j as int].0 == ids@[m]);
                    } else {
                        assert(ids@[m] == ids0[m]);
                        assert(is_entry_of(*engine, j as int, ids0[m]));
                    }
                }
                assert(engine.widget_keys()[j as int] == id@);
                assert(engine.widget_keys().contains(id@));
                assert(keys_of(ids@) =~= keys_of(ids0).push(id@));
                assert(keys_of(ids@)[ids0.len() as int] == id@);
                assert forall|q: int| 0 <= q < j + 1 && misrouted_entry((#[trigger] engine.widget_map@[q]).0, name@, *config)
                    implies keys_of(ids@).contains(engine.widget_map@[q].0@) by {
                    if q < j {
                        let x = choose|x: int| 0 <= x < keys_of(ids0).len() && keys_of(ids0)[x] == engine.widget_map@[q].0@;
                        assert(keys_of(ids@)[x] == engine.widget_map@[q].0@);
                    }
                }
            }
        }
        j += 1;
    }
    let ghost at_start = *engine;
    proof {
        assert forall|m: int| 0 <= m < ids@.len() implies is_entry_of(at_start, at_start.widget_map@.len() as int, #[trigger] ids@[m]) by {
            assert(is_entry_of(*engine, j as int, ids@[m]));
            let q = choose|q: int| 0 <= q < j && engine.widget_map@[q].0 == ids@[m];
            assert(0 <= q < at_start.widget_map@.len() && at_start.widget_map@[q].0 == ids@[m]);
        }
        assert forall|q: int|
            0 <= q < at_start.widget_map@.len() && !misrouted_entry(
                (#[trigger] at_start.widget_map@[q]).0,
                name@,
                *config,
            ) implies engine.ring().contains(at_start.widget_map@[q].0@) by {
            assert(at_start.widget_keys()[q] == at_start.widget_map@[q].0@);
            assert(at_start.widget_keys().contains(at_start.widget_map@[q].0@));
        }
        assert(entry_keys(Seq::<(ActivityId, W)>::empty()) =~= Seq::<ActivityKey>::empty());
    }
    let mut taken: Vec<(ActivityId, W)> = Vec::new();
    while ids.len() > 0
        invariant
            engine.wf(),
            forall|m: int| 0 <= m < ids@.len() ==> misrouted_entry(#[trigger] ids@[m], name@, *config),
            forall|m: int| 0 <= m < taken@.len() ==> misrouted_entry((#[trigger] taken@[m]).0, name@, *config),
            forall|q: int| 0 <= q < engine.widget_map@.len() && misrouted_entry((#[trigger] engine.widget_map@[q]).0, name@, *config)
                ==> keys_of(ids@).contains(engine.widget_map@[q].0@),
            forall|k: ActivityKey| engine.ring().contains(k) || entry_keys(taken@).contains(k) <==> at_start.ring().contains(k),
            at_start == *old(engine),
            at_start.wf(),
            forall|m: int| 0 <= m < ids@.len() ==> is_entry_of(at_start, at_start.widget_map@.len() as int, #[trigger] ids@[m]),
            forall|q: int|
                0 <= q < at_start.widget_map@.len() && !misrouted_entry(
                    (#[trigger] at_start.widget_map@[q]).0,
                    name@,
                    *config,
                ) ==> engine.ring().contains(at_start.widget_map@[q].0@),
            entry_keys(taken@).no_duplicates(),
            forall|k: ActivityKey| entry_keys(taken@).contains(k) ==> !engine.ring().contains(k),
        decreases ids@.len(),
    {
        let ghost before = *engine;
        let ghost ids0 = ids@;
        let ghost taken0 = taken@;
        let id = ids.pop().unwrap();
        proof {
            assert(ids0 =~= ids@.push(id));
            assert(keys_of(ids0) =~= keys_of(ids@).push(id@));
            assert(ids0[ids0.len() - 1] == id);
            assert(misrouted_entry(ids0[ids0.len() - 1], name@, *config));
            assert forall|m: int| 0 <= m < ids@.len() implies is_entry_of(at_start, at_start.widget_map@.len() as int, #[trigger] ids@[m]) by {
                assert(ids@[m] == ids0[m]);
            }
            assert(is_entry_of(at_start, at_start.widget_map@.len() as int, ids0[ids0.len() - 1]));
        }
        let ghost q0 = choose|q: int| 0 <= q < at_start.widget_map@.len() && at_start.widget_map@[q].0 == ids0[ids0.len() - 1];
        match engine.take(&id) {
            Some(widget) => {
                taken.push((id, widget));
                proof {
                    let jj = before.widget_keys().index_of(id@);
                    let ii = before.ring().index_of(id@);
                    lemma_remove_unique(before.ring(), ii);
                    assert(engine.ring() =~= before.ring().remove(ii));
                    assert(entry_keys(taken@) =~= entry_keys(taken0).push(id@));
                    assert(!entry_keys(taken0).contains(id@));
                    crate::cycle_order::lemma_push_unique(entry_keys(taken0), id@);
                    assert forall|q: int|
                        0 <= q < at_start.widget_map@.len() && !misrouted_entry(
                            (#[trigger] at_start.widget_map@[q]).0,
                            name@,
                            *config,
                        ) implies engine.ring().contains(at_start.widget_map@[q].0@) by {
                        let k = at_start.widget_map@[q].0@;
                        assert(before.ring().contains(k));
                        if k == id@ {
                            assert(at_start.widget_keys()[q] == k);
                            assert(at_start.widget_keys()[q0] == k);
                            assert(q == q0);
                        }
                    }
                    assert forall|k: ActivityKey| entry_keys(taken@).contains(k) implies !engine.ring().contains(k) by {
                        if k != id@ {
                            let x = choose|x: int| 0 <= x < entry_keys(taken@).len() && entry_keys(taken@)[x] == k;
                            assert(entry_keys(taken0)[x] == k);
                            assert(!before.ring().contains(k));
                        }
                    }
                    assert forall|k: ActivityKey| engine.ring().contains(k) || entry_keys(taken@).contains(k) <==> at_start.ring().contains(k) by {
                        assert(before.ring().contains(k) || entry_keys(taken0).contains(k) <==> at_start.ring().contains(k));
                        if k == id@ {
                            assert(entry_keys(taken@)[taken0.len() as int] == k);
                        }
                        if entry_keys(taken@).contains(k) && k != id@ {
                            let q = choose|q: int| 0 <= q < entry_keys(taken@).len() && entry_keys(taken@)[q] == k;
                            assert(entry_keys(taken0)[q] == k);
                        }
                        if entry_keys(taken0).contains(k) {
                            let q = choose|q: int| 0 <= q < entry_keys(taken0).len() && entry_keys(taken0)[q] == k;
                            assert(entry_keys(taken@)[q] == k);
                        }
                    }
                    assert forall|q: int| 0 <= q < engine.widget_map@.len() && misrouted_entry((#[trigger] engine.widget_map@[q]).0, name@, *config)
                        implies keys_of(ids@).contains(engine.widget_map@[q].0@) by {
                        let src = if q < jj { q } else { q + 1 };
                        assert(engine.widget_map@[q] == before.widget_map@[src]);
                        assert(before.widget_keys()[src] != id@) by {
                            assert(before.widget_keys()[jj] == id@);
                        }
                        let k = engine.widget_map@[q].0@;
                        assert(keys_of(ids0).contains(k));
                        let x = choose|x: int| 0 <= x < keys_of(ids0).len() && keys_of(ids0)[x] == k;
                        assert(keys_of(ids@)[x] == k);
                    }
                }
            },
            None => {
                proof {
                    assert forall|q: int| 0 <= q < engine.widget_map@.len() && misrouted_entry((#[trigger] engine.widget_map@[q]).0, name@, *config)
                        implies keys_of(ids@).contains(engine.widget_map@[q].0@) by {
                        let k = engine.widget_map@[q].0@;
                        assert(engine.widget_keys()[q] == k);
                        assert(engine.widget_keys().contains(k));
                        assert(engine.ring().contains(k));
                        assert(k != id@);
                        assert(keys_of(ids0).contains(k));
                        let x = choose|x: int| 0 <= x < keys_of(ids0).len() && keys_of(ids0)[x] == k;
                        assert(keys_of(ids@)[x] == k);
                    }
                }
            },
        }
    }
    proof {
        assert(entry_keys(taken@).no_duplicates());
        assert forall|j: int| 0 <= j < engine.widget_map@.len() implies !misrouted_entry(
            (#[trigger] engine.widget_map@[j]).0,
            name@,
            *config,
        ) by {
            if misrouted_entry(engine.widget_map@[j].0, name@, *config) {
                assert(keys_of(ids@).contains(engine.widget_map@[j].0@));
            }
        }
    }
    taken
}

/// The windows of the layout, each with the ring of its activities, and the
/// settings they were made from.
#[derive(Debug)]
pub struct DynamicLayout<W> {
    pub order_managers: Vec<(String, CycleOrder<W>)>,
    pub config: DynamicLayoutConfigMain,
}

impl<W> DynamicLayout<W> {
    /// The names of the windows that exist, in order.
    pub open spec fn names(&self) -> Seq<Seq<char>> {
        names_of(self.order_managers@)
    }

    /// What `update_windows` makes of `before`: the windows are those that
    /// are configured; if the default window is, no activity is lost or
    /// gained; no activity sits in a window other than the configured one it
    /// asks for; with the default window configured, no activity held once is
    /// held twice, and each activity of a dropped window lands in the window
    /// it is routed to.
    pub open spec fn synced_from(&self, before: Self) -> bool {
        &&& self.config == before.config
        &&& forall|n: Seq<char>| self.has_manager(n) <==> before.config.has_window(n)
        &&& before.config.has_window(Seq::<char>::empty()) ==> forall|k: ActivityKey|
            self.holds(k) <==> before.holds(k)
        &&& forall|i: int, j: int|
            0 <= i < self.order_managers@.len() && 0 <= j
                < self.order_managers@[i].1.widget_map@.len() ==> !misrouted_entry(
                (#[trigger] self.order_managers@[i].1.widget_map@[j]).0,
                self.order_managers@[i].0@,
                self.config,
            )
        &&& before.config.has_window(Seq::<char>::empty()) && before.no_shared() ==> self.no_shared()
        &&& before.config.has_window(Seq::<char>::empty()) && before.no_shared() ==> forall|j: int, q: int|
            0 <= j < before.order_managers@.len() && !before.config.has_window(before.order_managers@[j].0@)
                && 0 <= q < before.order_managers@[j].1.widget_map@.len() ==> {
                let e = #[trigger] before.order_managers@[j].1.widget_map@[q];
                self.manager(self.route(e.0)).ring().contains(e.0@)
            }
    }

    /// Whether the window at `i` holds what `update_config` makes of the same
    /// window of `synced`: the layout's `max_active`, the window's
    /// `max_activities` (raised to `max_active`) as `max_shown`, the active
    /// tier cut down to fit, and the ring sorted by the window's rules if its
    /// settings ask for it on reload.
    pub open spec fn window_settings_applied(&self, synced: Self, i: int) -> bool {
        let s = synced.order_managers@[i];
        let f = self.order_managers@[i];
        let ma = self.config.max_active;
        let active: u16 = if s.1.active < ma {
            s.1.active
        } else {
            ma
        };
        &&& f.0 == s.0
        &&& f.1.widget_map == s.1.widget_map
        &&& f.1.max_active == ma
        &&& f.1.active == active
        &&& forall|c: DynamicLayoutConfig|
            #[trigger] self.config.is_config_for(s.0@, c) ==> {
                let ms: u16 = if c.max_activities < ma {
                    ma
                } else {
                    c.max_activities
                };
                &&& f.1.max_shown == ms
                &&& f.1.active_offset == (if s.1.active_offset + active > ms {
                    ms - active
                } else {
                    s.1.active_offset as int
                })
                &&& f.1.ring() == (if c.reorder_on_reload {
                    sorted_by_rules(c.activity_order@, s.1.ring())
                } else {
                    s.1.ring()
                })
            }
    }

    /// No activity is held by two windows.
    pub open spec fn no_shared(&self) -> bool {
        no_shared_in(self.order_managers@)
    }

    /// Whether the window `name` exists.
    pub open spec fn has_manager(&self, name: Seq<char>) -> bool {
        self.names().contains(name)
    }

    /// The ring of the window `name`.
    pub open spec fn manager(&self, name: Seq<char>) -> CycleOrder<W> {
        self.order_managers@[self.names().index_of(name)].1
    }

    /// Window names are unique and each ring is well formed.
    pub open spec fn wf(&self) -> bool {
        &&& self.names().no_duplicates()
        &&& forall|i: int|
            0 <= i < self.order_managers@.len() ==> (#[trigger] self.order_managers@[i]).1.wf()
    }

    /// The window an activity goes to: the one it asks for if that exists,
    /// else the default window (with an empty name).
    pub open spec fn route(&self, id: ActivityId) -> Seq<char> {
        if self.has_manager(declared_window(id)) {
            declared_window(id)
        } else {
            Seq::empty()
        }
    }

    /// Whether some window holds the activity `k`.
    pub open spec fn holds(&self, k: ActivityKey) -> bool {
        holds_in(self.order_managers@, k)
    }

    /// A layout with the default settings and no window yet.
    pub fn new() -> (r: Self)
        ensures
            r.wf(),
            r.order_managers@.len() == 0,
            r.config.windows@.len() == 1,
            r.config.windows@[0].0@ == Seq::<char>::empty(),
    {
        let r = DynamicLayout { order_managers: Vec::new(), config: DynamicLayoutConfigMain::default() };
        assert(r.names() =~= Seq::<Seq<char>>::empty());
        r
    }

    /// The position of the window `name`, if it exists.
    fn manager_index(&self, name: &str) -> (r: Option<usize>)
        requires
            self.wf(),
        ensures
            match r {
                Some(i) => {
                    &&& i < self.order_managers@.len()
                    &&& self.order_managers@[i as int].0@ == name@
                    &&& self.names().index_of(name@) == i
                },
                None => !self.has_manager(name@),
            },
    {
        let name_string = name.to_string();
        let mut i: usize = 0;
        while i < self.order_managers.len()
            invariant
                self.wf(),
                i <= self.order_managers@.len(),
                name_string@ == name@,
                forall|j: int| 0 <= j < i ==> self.order_managers@[j].0@ != name@,
            decreases self.order_managers@.len() - i,
        {
            if self.order_managers[i].0 == name_string {
                proof {
                    assert(self.names()[i as int] == name@);
                    let c = self.names().index_of(name@);
                    assert(0 <= c < self.names().len() && self.names()[c] == name@);
                    assert(c == i as int) by {
                        if c != i as int {
                            assert(self.names()[c] != self.names()[i as int]);
                        }
                    }
                }
                return Some(i);
            }
            i += 1;
        }
        proof {
            if self.has_manager(name@) {
                let j = choose|j: int| 0 <= j < self.names().len() && self.names()[j] == name@;
                assert(self.order_managers@[j].0@ == name@);
            }
        }
        None
    }

    /// The window `id` goes to: the one it asks for if that exists, else the
    /// default window (with an empty name).
    pub fn get_window_name(&self, id: &ActivityId) -> (r: String)
        requires
            self.wf(),
        ensures
            r@ == self.route(*id),
    {
        let requested = id.window_name();
        match self.manager_index(requested.as_str()) {
            Some(i) => {
                proof {
                    assert(self.names()[i as int] == requested@);
                }
                requested
            },
            None => String::new(),
        }
    }

    /// The window that holds `activity`, and its widget.
    pub fn find_widget(&self, activity: &ActivityId) -> (r: Option<(&W, String)>)
        requires
            self.wf(),
        ensures
            match r {
                Some((w, name)) => exists|i: int, j: int|
                    0 <= i < self.order_managers@.len() && self.order_managers@[i].0@ == name@
                        && 0 <= j < self.order_managers@[i].1.widget_map@.len()
                        && self.order_managers@[i].1.widget_map@[j].0@ == activity@
                        && self.order_managers@[i].1.widget_map@[j].1 == *w,
                None => !self.holds(activity@),
            },
    {
        let mut i: usize = 0;
        while i < self.order_managers.len()
            invariant
                self.wf(),
                i <= self.order_managers@.len(),
                forall|m: int| 0 <= m < i ==> !(#[trigger] self.order_managers@[m]).1.ring().contains(activity@),
            decreases self.order_managers@.len() - i,
        {
            let map = &self.order_managers[i].1.widget_map;
            let mut j: usize = 0;
            while j < map.len()
                invariant
                    self.wf(),
                    i < self.order_managers@.len(),
                    *map == self.order_managers@[i as int].1.widget_map,
                    j <= map@.len(),
                    forall|m: int| 0 <= m < j ==> map@[m].0@ != activity@,
                decreases map@.len() - j,
            {
                if map[j].0.same(activity) {
                    return Some((&map[j].1, self.order_managers[i].0.clone()));
                }
                j += 1;
            }
            proof {
                let o = self.order_managers@[i as int].1;
                assert(o.wf());
                if o.ring().contains(activity@) {
                    assert(o.widget_keys().contains(activity@));
                    let m = choose|m: int| 0 <= m < o.widget_keys().len() && o.widget_keys()[m] == activity@;
                    assert(map@[m].0@ == activity@);
                }
            }
            i += 1;
        }
        None
    }

    /// Adds `activity_id`, with its widget, to the window it is routed to,
    /// then sorts that window by its rules if its settings ask for it on each
    /// addition. Nothing changes if that window does not exist.
    pub fn add_activity(&mut self, activity_id: &ActivityId, widget: W)
        requires
            old(self).wf(),
        ensures
            final(self).wf(),
            final(self).config == old(self).config,
            final(self).names() == old(self).names(),
            !old(self).has_manager(old(self).route(*activity_id)) ==> final(self).order_managers@
                == old(self).order_managers@,
            old(self).has_manager(old(self).route(*activity_id)) ==> {
                let name = old(self).route(*activity_id);
                let i = old(self).names().index_of(name);
                let before = old(self).manager(name);
                let after = final(self).manager(name);
                let pushed = if before.ring().contains(activity_id@) {
                    before.ring()
                } else {
                    before.ring().push(activity_id@)
                };
                &&& after.ring().to_set() == before.ring().to_set().insert(activity_id@)
                &&& exists|c: DynamicLayoutConfig|
                    #![trigger old(self).config.is_config_for(name, c)]
                    old(self).config.is_config_for(name, c) && after.ring() == (if c.reorder_on_add {
                        sorted_by_rules(c.activity_order@, pushed)
                    } else {
                        pushed
                    })
                &&& after.widget_map@ == (if before.ring().contains(activity_id@) {
                    before.widget_map@
                } else {
                    before.widget_map@.push((*activity_id, widget))
                })
                &&& after.active == before.active
                &&& after.active_offset == before.active_offset
                &&& forall|j: int|
                    0 <= j < old(self).order_managers@.len() && j != i
                        ==> #[trigger] final(self).order_managers@[j] == old(self).order_managers@[j]
            },
    {
        let window_name = self.get_window_name(activity_id);
        let i = match self.manager_index(window_name.as_str()) {
            Some(i) => i,
            None => {
                return;
            },
        };
        proof {
            assert(self.names()[i as int] == window_name@);
        }
        let conf = self.config.get_for_window(window_name.as_str());
        let ghost old_self = *self;
        let ghost before = self.order_managers@[i as int].1;
        let engine = &mut self.order_managers[i].1;
        engine.add(activity_id, widget);
        let ghost added = *engine;
        if conf.reorder_on_add {
            update_activity_order(engine, &conf);
        }
        proof {
            let after = self.order_managers@[i as int].1;
            assert(self.names() =~= old_self.names());
            lemma_ring_after_add(before.ring(), added.ring(), activity_id@);
            if conf.reorder_on_add {
                lemma_sorted_keeps_entries(conf.activity_order@, added.ring());
                assert forall|k: ActivityKey| after.ring().contains(k) <==> added.ring().contains(k) by {
                    vstd::seq_lib::to_multiset_contains(after.ring(), k);
                    vstd::seq_lib::to_multiset_contains(added.ring(), k);
                }
                assert(after.ring().to_set() =~= added.ring().to_set());
            }
            assert forall|j: int| 0 <= j < self.order_managers@.len() implies (#[trigger] self.order_managers@[j]).1.wf() by {
                if j != i {
                    assert(self.order_managers@[j] == old_self.order_managers@[j]);
                }
            }
        }
    }

    /// The first window whose ring holds `id`, if any.
    fn holder_index(&self, id: &ActivityId) -> (r: Option<usize>)
        requires
            self.wf(),
        ensures
            match r {
                Some(i) => {
                    &&& i < self.order_managers@.len()
                    &&& self.order_managers@[i as int].1.ring().contains(id@)
                    &&& forall|m: int| 0 <= m < i ==> !(#[trigger] self.order_managers@[m]).1.ring().contains(id@)
                },
                None => !self.holds(id@),
            },
    {
        let mut i: usize = 0;
        while i < self.order_managers.len()
            invariant
                self.wf(),
                i <= self.order_managers@.len(),
                forall|m: int| 0 <= m < i ==> !(#[trigger] self.order_managers@[m]).1.ring().contains(id@),
            decreases self.order_managers@.len() - i,
        {
            proof {
                assert(self.order_managers@[i as int].1.wf());
            }
            if self.order_managers[i].1.position(id).is_some() {
                return Some(i);
            }
            i += 1;
        }
        None
    }

    /// The same layout with the ring at `i` replaced by a well-formed one is
    /// well formed.
    proof fn lemma_replaced(&self, before: Self, i: int)
        requires
            before.wf(),
            0 <= i < before.order_managers@.len(),
            self.order_managers@.len() == before.order_managers@.len(),
            self.order_managers@[i].0 == before.order_managers@[i].0,
            self.order_managers@[i].1.wf(),
            forall|j: int| 0 <= j < before.order_managers@.len() && j != i
                ==> #[trigger] self.order_managers@[j] == before.order_managers@[j],
        ensures
            self.wf(),
            self.names() == before.names(),
    {
        assert(self.names() =~= before.names());
        assert forall|j: int| 0 <= j < self.order_managers@.len() implies (#[trigger] self.order_managers@[j]).1.wf() by {
            if j != i {
                assert(self.order_managers@[j] == before.order_managers@[j]);
            }
        }
    }

    /// Makes `id` active in the window that holds it (the first, should
    /// several hold it); nothing changes if no window does.
    pub fn activate(&mut self, id: &ActivityId)
        requires
            old(self).wf(),
        ensures
            final(self).wf(),
            final(self).config == old(self).config,
            final(self).names() == old(self).names(),
            !old(self).holds(id@) ==> final(self).order_managers@ == old(self).order_managers@,
            old(self).holds(id@) ==> exists|i: int| {
                &&& 0 <= i < old(self).order_managers@.len()
                &&& old(self).order_managers@[i].1.ring().contains(id@)
                &&& forall|j: int| 0 <= j < i ==> !(#[trigger] old(self).order_managers@[j]).1.ring().contains(id@)
                &&& final(self).order_managers@[i].0 == old(self).order_managers@[i].0
                &&& final(self).order_managers@[i].1.activation_of(old(self).order_managers@[i].1, id@)
                &&& forall|j: int| 0 <= j < old(self).order_managers@.len() && j != i
                    ==> #[trigger] final(self).order_managers@[j] == old(self).order_managers@[j]
            },
    {
        let i = match self.holder_index(id) {
            Some(i) => i,
            None => {
                return;
            },
        };
        let ghost old_self = *self;
        proof {
            assert(self.order_managers@[i as int].1.wf());
        }
        let engine = &mut self.order_managers[i].1;
        let ghost before = *engine;
        engine.activate(id);
        proof {
            let after = self.order_managers@[i as int].1;
            if before.is_active_key(id@) {
                assert(after == before);
            }
            self.lemma_replaced(old_self, i as int);
        }
    }

    /// Takes `id` out of the active tier of the window that holds it (the
    /// first, should several hold it); nothing changes if no window does.
    pub fn deactivate(&mut self, id: &ActivityId)
        requires
            old(self).wf(),
        ensures
            final(self).wf(),
            final(self).config == old(self).config,
            final(self).names() == old(self).names(),
            !old(self).holds(id@) ==> final(self).order_managers@ == old(self).order_managers@,
            old(self).holds(id@) ==> exists|i: int| {
                &&& 0 <= i < old(self).order_managers@.len()
                &&& old(self).order_managers@[i].1.ring().contains(id@)
                &&& forall|j: int| 0 <= j < i ==> !(#[trigger] old(self).order_managers@[j]).1.ring().contains(id@)
                &&& final(self).order_managers@[i].0 == old(self).order_managers@[i].0
                &&& final(self).order_managers@[i].1.deactivation_of(old(self).order_managers@[i].1, id@)
                &&& forall|j: int| 0 <= j < old(self).order_managers@.len() && j != i
                    ==> #[trigger] final(self).order_managers@[j] == old(self).order_managers@[j]
            },
    {
        let i = match self.holder_index(id) {
            Some(i) => i,
            None => {
                return;
            },
        };
        let ghost old_self = *self;
        proof {
            assert(self.order_managers@[i as int].1.wf());
        }
        let engine = &mut self.order_managers[i].1;
        let ghost before = *engine;
        engine.deactivate(id);
        proof {
            let after = self.order_managers@[i as int].1;
            if !before.is_active_key(id@) {
                assert(after == before);
            }
            self.lemma_replaced(old_self, i as int);
        }
    }

    /// Turns the ring of the window `window_name` one step: towards its front
    /// if `next`, else towards its back. Nothing changes if there is no such
    /// window.
    pub fn cycle(&mut self, window_name: &str, next: bool)
        requires
            old(self).wf(),
        ensures
            final(self).wf(),
            final(self).config == old(self).config,
            final(self).names() == old(self).names(),
            !old(self).has_manager(window_name@) ==> final(self).order_managers@ == old(self).order_managers@,
            old(self).has_manager(window_name@) ==> {
                let i = old(self).names().index_of(window_name@);
                &&& final(self).order_managers@[i].1.order@ == if next {
                    rotated_forward(old(self).order_managers@[i].1.order@)
                } else {
                    rotated_backward(old(self).order_managers@[i].1.order@)
                }
                &&& final(self).order_managers@[i].1.active == old(self).order_managers@[i].1.active
                &&& final(self).order_managers@[i].1.active_offset == old(self).order_managers@[i].1.active_offset
                &&& final(self).order_managers@[i].1.widget_map == old(self).order_managers@[i].1.widget_map
                &&& final(self).order_managers@[i].1.max_shown == old(self).order_managers@[i].1.max_shown
                &&& final(self).order_managers@[i].1.max_active == old(self).order_managers@[i].1.max_active
                &&& final(self).order_managers@[i].0 == old(self).order_managers@[i].0
                &&& forall|j: int| 0 <= j < old(self).order_managers@.len() && j != i
                    ==> #[trigger] final(self).order_managers@[j] == old(self).order_managers@[j]
            },
    {
        let i = match self.manager_index(window_name) {
            Some(i) => i,
            None => {
                return;
            },
        };
        let ghost old_self = *self;
        proof {
            assert(self.names()[i as int] == window_name@);
            assert(self.order_managers@[i as int].1.wf());
        }
        let engine = &mut self.order_managers[i].1;
        if next {
            engine.next();
        } else {
            engine.previous();
        }
        proof {
            self.lemma_replaced(old_self, i as int);
        }
    }

    /// The names of the windows.
    pub fn list_windows(&self) -> (r: Vec<String>)
        ensures
            r@.map_values(|s: String| s@) == self.names(),
    {
        let mut r: Vec<String> = Vec::new();
        let mut i: usize = 0;
        while i < self.order_managers.len()
            invariant
                i <= self.order_managers@.len(),
                r@.len() == i,
                r@.map_values(|s: String| s@) == self.names().subrange(0, i as int),
            decreases self.order_managers@.len() - i,
        {
            r.push(self.order_managers[i].0.clone());
            proof {
                assert(r@.map_values(|s: String| s@) =~= self.names().subrange(0, i + 1));
            }
            i += 1;
        }
        proof {
            assert(self.names().subrange(0, i as int) =~= self.names());
        }
        r
    }

    /// The activities of all windows.
    pub fn list_activities(&self) -> (r: Vec<ActivityId>)
        requires
            self.wf(),
        ensures
            forall|k: ActivityKey| keys_of(r@).contains(k) <==> self.holds(k),
    {
        let mut r: Vec<ActivityId> = Vec::new();
        let mut i: usize = 0;
        while i < self.order_managers.len()
            invariant
                i <= self.order_managers@.len(),
                forall|k: ActivityKey| keys_of(r@).contains(k) <==> exists|m: int|
                    0 <= m < i && (#[trigger] self.order_managers@[m]).1.ring().contains(k),
            decreases self.order_managers@.len() - i,
        {
            let ghost before = r@;
            let mut ids = self.order_managers[i].1.list_activities();
            let ghost added = ids@;
            r.append(&mut ids);
            proof {
                let kb = keys_of(before);
                let ka = keys_of(added);
                let om = self.order_managers@;
                assert(keys_of(r@) =~= kb + ka);
                assert forall|k: ActivityKey| keys_of(r@).contains(k) <==> (kb.contains(k) || ka.contains(k)) by {
                    if keys_of(r@).contains(k) {
                        let q = choose|q: int| 0 <= q < keys_of(r@).len() && keys_of(r@)[q] == k;
                        if q < kb.len() {
                            assert(kb[q] == k);
                        } else {
                            assert(ka[q - kb.len()] == k);
                        }
                    }
                    if kb.contains(k) {
                        let q = choose|q: int| 0 <= q < kb.len() && kb[q] == k;
                        assert(keys_of(r@)[q] == k);
                    }
                    if ka.contains(k) {
                        let q = choose|q: int| 0 <= q < ka.len() && ka[q] == k;
                        assert(keys_of(r@)[kb.len() + q] == k);
                    }
                }
                assert forall|k: ActivityKey| keys_of(r@).contains(k) <==> exists|m: int|
                    0 <= m < i + 1 && (#[trigger] om[m]).1.ring().contains(k) by {
                    assert(kb.contains(k) <==> exists|m: int| 0 <= m < i && (#[trigger] om[m]).1.ring().contains(k));
                    if exists|m: int| 0 <= m < i + 1 && (#[trigger] om[m]).1.ring().contains(k) {
                        let m = choose|m: int| 0 <= m < i + 1 && (#[trigger] om[m]).1.ring().contains(k);
                        if m < i {
                            assert(kb.contains(k));
                        } else {
                            assert(ka.contains(k));
                        }
                    }
                    if kb.contains(k) {
                        let m = choose|m: int| 0 <= m < i && (#[trigger] om[m]).1.ring().contains(k);
                        assert(0 <= m < i + 1 && om[m].1.ring().contains(k));
                    }
                    if ka.contains(k) {
                        assert(om[i as int].1.ring().contains(k));
                    }
                }
            }
            i += 1;
        }
        r
    }

    /// Takes `id` out of the first window that holds it and hands back its
    /// widget. A window left empty is made anew from its settings, or dropped
    /// if it is no longer configured.
    fn take_activity(&mut self, id: &ActivityId) -> (r: Option<W>)
        requires
            old(self).wf(),
        ensures
            final(self).wf(),
            final(self).config == old(self).config,
            r is Some <==> old(self).holds(id@),
            !old(self).holds(id@) ==> final(self).order_managers@ == old(self).order_managers@,
            old(self).holds(id@) ==> exists|i: int|
                #![trigger old(self).order_managers@[i]]
                {
                let before = old(self).order_managers@[i];
                &&& 0 <= i < old(self).order_managers@.len()
                &&& before.1.ring().contains(id@)
                &&& forall|j: int| 0 <= j < i ==> !(#[trigger] old(self).order_managers@[j]).1.ring().contains(id@)
                &&& if before.1.ring().len() == 1 && !old(self).config.has_window(before.0@) {
                    final(self).order_managers@ == old(self).order_managers@.remove(i)
                } else {
                    &&& final(self).order_managers@.len() == old(self).order_managers@.len()
                    &&& final(self).order_managers@[i].0 == before.0
                    &&& final(self).order_managers@[i].1.ring().to_set() == before.1.ring().to_set().remove(id@)
                    &&& before.1.ring().len() > 1 ==> final(self).order_managers@[i].1.removal_of(before.1, id@)
                    &&& before.1.ring().len() == 1 ==> forall|c: DynamicLayoutConfig|
                        #[trigger] old(self).config.is_config_for(before.0@, c)
                            ==> final(self).order_managers@[i].1.fresh_for(c)
                    &&& forall|j: int| 0 <= j < old(self).order_managers@.len() && j != i
                        ==> #[trigger] final(self).order_managers@[j] == old(self).order_managers@[j]
                }
            },
    {
        let i = match self.holder_index(id) {
            Some(i) => i,
            None => {
                return None;
            },
        };
        let ghost old_self = *self;
        proof {
            assert(self.order_managers@[i as int].1.wf());
        }
        let engine = &mut self.order_managers[i].1;
        let ghost before = *engine;
        let widget = engine.take(id);
        let emptied = engine.is_empty();
        let ghost after = *engine;
        proof {
            assert(after.ring() == before.ring().remove(before.ring().index_of(id@)));
            lemma_remove_unique(before.ring(), before.ring().index_of(id@));
            assert(after.ring().to_set() =~= before.ring().to_set().remove(id@));
            self.lemma_replaced(old_self, i as int);
        }
        if emptied {
            let name = self.order_managers[i].0.clone();
            let configured = self.config.window_index(name.as_str());
            proof {
                if let Some(j) = configured {
                    assert(names_of(self.config.windows@)[j as int] == name@);
                }
            }
            if configured.is_some() {
                let conf = self.config.get_for_window(name.as_str());
                let fresh = CycleOrder::new(&conf);
                let ghost mid = *self;
                self.order_managers[i] = (name, fresh);
                proof {
                    assert forall|c: DynamicLayoutConfig|
                        #[trigger] old_self.config.is_config_for(name@, c) implies fresh.fresh_for(c) by {
                        old_self.config.lemma_config_for_unique(name@, conf, c);
                    }
                    assert(fresh.ring().to_set() =~= before.ring().to_set().remove(id@));
                    self.lemma_replaced(mid, i as int);
                }
            } else {
                let ghost mid = *self;
                self.order_managers.remove(i);
                proof {
                    assert(self.order_managers@ =~= old_self.order_managers@.remove(i as int));
                    assert(self.names() =~= mid.names().remove(i as int));
                    lemma_remove_unique(mid.names(), i as int);
                    assert forall|j: int| 0 <= j < self.order_managers@.len() implies (#[trigger] self.order_managers@[j]).1.wf() by {
                        if j < i {
                            assert(self.order_managers@[j] == mid.order_managers@[j]);
                        } else {
                            assert(self.order_managers@[j] == mid.order_managers@[j + 1]);
                        }
                    }
                }
            }
        }
        proof {
            let b = old_self.order_managers@[i as int];
            assert(b.1 == before);
            assert(emptied <==> before.ring().len() == 1);
            if b.1.ring().len() == 1 && !old_self.config.has_window(b.0@) {
                assert(self.order_managers@ == old_self.order_managers@.remove(i as int));
            } else {
                assert(self.order_managers@.len() == old_self.order_managers@.len());
                assert(self.order_managers@[i as int].0 == b.0);
                assert(self.order_managers@[i as int].1.ring().to_set() == b.1.ring().to_set().remove(id@));
            }
        }
        widget
    }

    /// Takes `id` out of the first window that holds it; nothing changes if no
    /// window does. A window left empty is made anew from its settings, or
    /// dropped if it is no longer configured.
    pub fn remove_activity(&mut self, id: &ActivityId)
        requires
            old(self).wf(),
        ensures
            final(self).wf(),
            final(self).config == old(self).config,
            !old(self).holds(id@) ==> final(self).order_managers@ == old(self).order_managers@,
            old(self).holds(id@) ==> exists|i: int|
                #![trigger old(self).order_managers@[i]]
                {
                let before = old(self).order_managers@[i];
                &&& 0 <= i < old(self).order_managers@.len()
                &&& before.1.ring().contains(id@)
                &&& forall|j: int| 0 <= j < i ==> !(#[trigger] old(self).order_managers@[j]).1.ring().contains(id@)
                &&& if before.1.ring().len() == 1 && !old(self).config.has_window(before.0@) {
                    final(self).order_managers@ == old(self).order_managers@.remove(i)
                } else {
                    &&& final(self).order_managers@.len() == old(self).order_managers@.len()
                    &&& final(self).order_managers@[i].0 == before.0
                    &&& final(self).order_managers@[i].1.ring().to_set() == before.1.ring().to_set().remove(id@)
                    &&& forall|j: int| 0 <= j < old(self).order_managers@.len() && j != i
                        ==> #[trigger] final(self).order_managers@[j] == old(self).order_managers@[j]
                }
            },
    {
        let _ = self.take_activity(id);
    }

    /// Adds `id`, with its widget, to the window it is routed to, as it is;
    /// nothing changes if that window does not exist.
    fn place(&mut self, id: &ActivityId, widget: W)
        requires
            old(self).wf(),
        ensures
            final(self).wf(),
            final(self).config == old(self).config,
            final(self).names() == old(self).names(),
            !old(self).has_manager(old(self).route(*id)) ==> final(self).order_managers@
                == old(self).order_managers@,
            old(self).has_manager(old(self).route(*id)) ==> {
                let i = old(self).names().index_of(old(self).route(*id));
                &&& final(self).order_managers@[i].0 == old(self).order_managers@[i].0
                &&& final(self).order_managers@[i].1.ring().to_set()
                    == old(self).order_managers@[i].1.ring().to_set().insert(id@)
                &&& final(self).order_managers@[i].1.widget_map@ == (if old(self).order_managers@[i].1.ring().contains(id@) {
                    old(self).order_managers@[i].1.widget_map@
                } else {
                    old(self).order_managers@[i].1.widget_map@.push((*id, widget))
                })
                &&& forall|j: int|
                    0 <= j < old(self).order_managers@.len() && j != i
                        ==> #[trigger] final(self).order_managers@[j] == old(self).order_managers@[j]
            },
    {
        let window_name = self.get_window_name(id);
        let i = match self.manager_index(window_name.as_str()) {
            Some(i) => i,
            None => {
                return;
            },
        };
        proof {
            assert(self.names()[i as int] == window_name@);
            assert(self.order_managers@[i as int].1.wf());
        }
        let ghost old_self = *self;
        let ghost before = self.order_managers@[i as int].1;
        let engine = &mut self.order_managers[i].1;
        engine.add(id, widget);
        proof {
            let after = self.order_managers@[i as int].1;
            lemma_ring_after_add(before.ring(), after.ring(), id@);
            self.lemma_replaced(old_self, i as int);
        }
    }

    /// Drops the windows that are no longer configured, and hands out the
    /// activities they held, with their widgets.
    fn drop_unconfigured(&mut self) -> (orphans: Vec<(ActivityId, W)>)
        requires
            old(self).wf(),
        ensures
            final(self).wf(),
            final(self).config == old(self).config,
            forall|n: Seq<char>|
                final(self).has_manager(n) <==> (old(self).has_manager(n)
                    && old(self).config.has_window(n)),
            forall|k: ActivityKey|
                old(self).holds(k) <==> (final(self).holds(k) || entry_keys(orphans@).contains(k)),
            old(self).no_shared() ==> {
                &&& final(self).no_shared()
                &&& entry_keys(orphans@).no_duplicates()
                &&& forall|k: ActivityKey| entry_keys(orphans@).contains(k) ==> !final(self).holds(k)
            },
            forall|j: int, q: int|
                0 <= j < old(self).order_managers@.len() && !old(self).config.has_window(
                    old(self).order_managers@[j].0@,
                ) && 0 <= q < old(self).order_managers@[j].1.widget_map@.len() ==> orphans@.contains(
                    #[trigger] old(self).order_managers@[j].1.widget_map@[q],
                ),
    {
        let ghost all = self.order_managers@;
        let mut orphans: Vec<(ActivityId, W)> = Vec::new();
        let mut i: usize = 0;
        while i < self.order_managers.len()
            invariant
                self.wf(),
                self.config == old(self).config,
                all == old(self).order_managers@,
                i <= self.order_managers@.len(),
                forall|x: int| 0 <= x < i ==> old(self).config.has_window(
                    (#[trigger] self.order_managers@[x]).0@,
                ),
                forall|n: Seq<char>|
                    names_of(all).contains(n) && old(self).config.has_window(n) ==> #[trigger] self.names().contains(n),
                forall|n: Seq<char>| #[trigger] self.names().contains(n) ==> names_of(all).contains(n),
                forall|k: ActivityKey|
                    holds_in(all, k) <==> (holds_in(self.order_managers@, k) || entry_keys(
                        orphans@,
                    ).contains(k)),
                no_shared_in(all) ==> {
                    &&& no_shared_in(self.order_managers@)
                    &&& entry_keys(orphans@).no_duplicates()
                    &&& forall|k: ActivityKey| entry_keys(orphans@).contains(k) ==> !holds_in(self.order_managers@, k)
                },
                forall|j: int, q: int|
                    0 <= j < all.len() && !old(self).config.has_window(all[j].0@) && 0 <= q
                        < all[j].1.widget_map@.len() ==> orphans@.contains(
                        #[trigger] all[j].1.widget_map@[q],
                    ) || exists|x: int|
                        i <= x < self.order_managers@.len() && self.order_managers@[x] == all[j],
            decreases self.order_managers@.len() - i,
        {
            let configured = self.config.window_index(self.order_managers[i].0.as_str());
            if configured.is_some() {
                proof {
                    let j = configured->0;
                    assert(names_of(self.config.windows@)[j as int] == self.order_managers@[i as int].0@);
                    let om = self.order_managers@;
                    assert forall|j: int, q: int|
                        0 <= j < all.len() && !old(self).config.has_window(all[j].0@) && 0 <= q
                            < all[j].1.widget_map@.len() implies orphans@.contains(
                            #[trigger] all[j].1.widget_map@[q],
                        ) || exists|x: int|
                            i + 1 <= x < om.len() && om[x] == all[j] by {
                        if !orphans@.contains(all[j].1.widget_map@[q]) {
                            let x = choose|x: int| i <= x < om.len() && om[x] == all[j];
                            assert(x != i);
                            assert(i + 1 <= x < om.len() && om[x] == all[j]);
                        }
                    }
                }
                i += 1;
            } else {
                let ghost before = self.order_managers@;
                let ghost orphans0 = orphans@;
                proof {
                    assert(before[i as int].1.wf());
                    assert(forall|n: Seq<char>|
                        names_of(all).contains(n) && old(self).config.has_window(n) ==> names_of(before).contains(n));
                    assert(forall|n: Seq<char>| names_of(before).contains(n) ==> names_of(all).contains(n));
                    assert(!old(self).config.has_window(before[i as int].0@));
                    if no_shared_in(all) {
                        assert(forall|k: ActivityKey| entry_keys(orphans0).contains(k) ==> !holds_in(before, k));
                        assert(entry_keys(orphans0).no_duplicates());
                    }
                }
                let (_, engine) = self.order_managers.remove(i);
                let ghost e = engine;
                let mut entries = engine.into_entries();
                let ghost added = entries@;
                orphans.append(&mut entries);
                proof {
                    assert(self.names() =~= names_of(before).remove(i as int));
                    lemma_remove_unique(names_of(before), i as int);
                    assert(names_of(before)[i as int] == before[i as int].0@);
                    assert forall|j: int| 0 <= j < self.order_managers@.len() implies (#[trigger] self.order_managers@[j]).1.wf() by {
                        if j < i {
                            assert(self.order_managers@[j] == before[j]);
                        } else {
                            assert(self.order_managers@[j] == before[j + 1]);
                        }
                    }
                    assert forall|x: int| 0 <= x < i implies old(self).config.has_window(
                        (#[trigger] self.order_managers@[x]).0@,
                    ) by {
                        assert(self.order_managers@[x] == before[x]);
                    }
                    assert(entry_keys(orphans@) =~= entry_keys(orphans0) + e.widget_keys());
                    assert(orphans@ =~= orphans0 + e.widget_map@);
                    let om = self.order_managers@;
                    assert forall|j: int, q: int|
                        0 <= j < all.len() && !old(self).config.has_window(all[j].0@) && 0 <= q
                            < all[j].1.widget_map@.len() implies orphans@.contains(
                            #[trigger] all[j].1.widget_map@[q],
                        ) || exists|x: int|
                            i <= x < om.len() && om[x] == all[j] by {
                        let v = all[j].1.widget_map@[q];
                        if orphans0.contains(v) {
                            let y = choose|y: int| 0 <= y < orphans0.len() && orphans0[y] == v;
                            assert(orphans@[y] == v);
                        } else {
                            let x = choose|x: int| i <= x < before.len() && before[x] == all[j];
                            if x == i {
                                assert(orphans@[orphans0.len() + q] == v);
                            } else {
                                assert(om[x - 1] == before[x]);
                            }
                        }
                    }
                    if no_shared_in(all) {
                        lemma_no_shared_remove(before, i as int);
                        lemma_concat_unique(entry_keys(orphans0), e.widget_keys());
                        assert forall|k: ActivityKey| entry_keys(orphans@).contains(k) implies !holds_in(om, k) by {
                            lemma_holds_in_remove(before, i as int, k);
                            assert(e.ring().contains(k) <==> e.widget_keys().contains(k));
                            let a = entry_keys(orphans0);
                            let b = e.widget_keys();
                            let q = choose|q: int| 0 <= q < (a + b).len() && (a + b)[q] == k;
                            if q < a.len() {
                                assert(a[q] == k);
                                assert(!holds_in(before, k));
                            } else {
                                assert(b[q - a.len()] == k);
                                assert(before[i as int].1 == e);
                                assert(om == before.remove(i as int));
                            }
                        }
                    }
                    assert forall|k: ActivityKey| holds_in(all, k) <==> (holds_in(self.order_managers@, k) || entry_keys(
                        orphans@,
                    ).contains(k)) by {
                        lemma_holds_in_remove(before, i as int, k);
                        assert(e.ring().contains(k) <==> e.widget_keys().contains(k));
                        let a = entry_keys(orphans0);
                        let b = e.widget_keys();
                        if entry_keys(orphans@).contains(k) {
                            let q = choose|q: int| 0 <= q < (a + b).len() && (a + b)[q] == k;
                            if q < a.len() {
                                assert(a[q] == k);
                            } else {
                                assert(b[q - a.len()] == k);
                            }
                        }
                        if a.contains(k) {
                            let q = choose|q: int| 0 <= q < a.len() && a[q] == k;
                            assert((a + b)[q] == k);
                        }
                        if b.contains(k) {
                            let q = choose|q: int| 0 <= q < b.len() && b[q] == k;
                            assert((a + b)[a.len() + q] == k);
                        }
                    }
                }
            }
        }
        proof {
            assert forall|n: Seq<char>| self.has_manager(n) implies old(self).config.has_window(n) by {
                let x = choose|x: int| 0 <= x < self.names().len() && self.names()[x] == n;
                assert(old(self).config.has_window(self.order_managers@[x].0@));
            }
        }
        orphans
    }

    /// Makes a window, with an empty ring, for each configured window that
    /// does not exist yet.
    fn create_missing(&mut self)
        requires
            old(self).wf(),
        ensures
            final(self).wf(),
            final(self).config == old(self).config,
            forall|n: Seq<char>|
                final(self).has_manager(n) <==> (old(self).has_manager(n) || old(self).config.has_window(n)),
            forall|k: ActivityKey| final(self).holds(k) <==> old(self).holds(k),
            old(self).no_shared() ==> final(self).no_shared(),
    {
        let mut i: usize = 0;
        while i < self.config.windows.len()
            invariant
                self.wf(),
                self.config == old(self).config,
                i <= self.config.windows@.len(),
                forall|n: Seq<char>|
                    #[trigger] self.has_manager(n) <==> (old(self).has_manager(n) || names_of(
                        self.config.windows@,
                    ).subrange(0, i as int).contains(n)),
                forall|k: ActivityKey| #[trigger] self.holds(k) <==> old(self).holds(k),
                old(self).no_shared() ==> self.no_shared(),
            decreases self.config.windows@.len() - i,
        {
            let ghost before = *self;
            let ghost cur = names_of(self.config.windows@).subrange(0, i + 1);
            let ghost pre = names_of(self.config.windows@).subrange(0, i as int);
            let name = self.config.windows[i].0.clone();
            proof {
                assert(cur =~= pre.push(name@));
                assert forall|n: Seq<char>| cur.contains(n) <==> (pre.contains(n) || n == name@) by {
                    if cur.contains(n) && n != name@ {
                        let q = choose|q: int| 0 <= q < cur.len() && cur[q] == n;
                        assert(pre[q] == n);
                    }
                    if pre.contains(n) {
                        let q = choose|q: int| 0 <= q < pre.len() && pre[q] == n;
                        assert(cur[q] == n);
                    }
                    if n == name@ {
                        assert(cur[i as int] == n);
                    }
                }
            }
            let found = self.manager_index(name.as_str());
            proof {
                if let Some(j) = found {
                    assert(before.names()[j as int] == name@);
                }
            }
            if found.is_none() {
                let fresh = CycleOrder::new(&self.config.get_for_window(name.as_str()));
                let ghost e = (name, fresh);
                self.order_managers.push((name, fresh));
                proof {
                    assert(self.names() =~= before.names().push(name@));
                    crate::cycle_order::lemma_push_unique(before.names(), name@);
                    if old(self).no_shared() {
                        assert(fresh.ring().len() == 0);
                        lemma_no_shared_push(before.order_managers@, e);
                    }
                    assert forall|j: int| 0 <= j < self.order_managers@.len() implies (#[trigger] self.order_managers@[j]).1.wf() by {
                        if j < before.order_managers@.len() {
                            assert(self.order_managers@[j] == before.order_managers@[j]);
                        }
                    }
                    assert forall|k: ActivityKey| #[trigger] self.holds(k) <==> old(self).holds(k) by {
                        lemma_holds_in_push(before.order_managers@, e, k);
                        assert(before.holds(k) <==> old(self).holds(k));
                        assert(!fresh.ring().contains(k));
                    }
                    assert forall|n: Seq<char>| #[trigger] self.has_manager(n) <==> (old(self).has_manager(n) || cur.contains(n)) by {
                        assert(before.has_manager(n) <==> (old(self).has_manager(n) || pre.contains(n)));
                    }
                }
            } else {
                proof {
                    assert forall|n: Seq<char>| #[trigger] self.has_manager(n) <==> (old(self).has_manager(n) || cur.contains(n)) by {
                        assert(before.has_manager(n) <==> (old(self).has_manager(n) || pre.contains(n)));
                        assert(before.has_manager(name@) <==> (old(self).has_manager(name@) || pre.contains(name@)));
                    }
                }
            }
            i += 1;
        }
        proof {
            assert(names_of(self.config.windows@).subrange(0, i as int) =~= names_of(self.config.windows@));
        }
    }

    /// Adds each of `orphans` to the window it is routed to.
    fn readd(&mut self, orphans: Vec<(ActivityId, W)>)
        requires
            old(self).wf(),
        ensures
            final(self).wf(),
            final(self).config == old(self).config,
            final(self).names() == old(self).names(),
            old(self).has_manager(Seq::<char>::empty()) ==> forall|k: ActivityKey|
                final(self).holds(k) <==> (old(self).holds(k) || entry_keys(orphans@).contains(k)),
            old(self).has_manager(Seq::<char>::empty()) ==> forall|m: int|
                0 <= m < orphans@.len() ==> final(self).manager(
                    final(self).route((#[trigger] orphans@[m]).0),
                ).ring().contains(orphans@[m].0@),
            old(self).has_manager(Seq::<char>::empty()) && old(self).no_shared() && entry_keys(
                orphans@,
            ).no_duplicates() && (forall|k: ActivityKey|
                entry_keys(orphans@).contains(k) ==> !old(self).holds(k)) ==> {
                &&& final(self).no_shared()
                &&& forall|m: int|
                    0 <= m < orphans@.len() ==> final(self).manager(
                        final(self).route((#[trigger] orphans@[m]).0),
                    ).widget_map@.contains(orphans@[m])
            },
    {
        let ghost all = orphans@;
        let mut orphans = orphans;
        proof {
            assert forall|m: int| 0 <= m < all.len() implies entry_keys(all).contains((#[trigger] all[m]).0@) by {
                assert(entry_keys(all)[m] == all[m].0@);
            }
        }
        while orphans.len() > 0
            invariant
                self.wf(),
                self.config == old(self).config,
                self.names() == old(self).names(),
                orphans@.len() <= all.len(),
                orphans@ == all.subrange(0, orphans@.len() as int),
                old(self).has_manager(Seq::<char>::empty()) ==> forall|k: ActivityKey|
                    (old(self).holds(k) || entry_keys(all).contains(k)) <==> (#[trigger] self.holds(k)
                        || entry_keys(orphans@).contains(k)),
                old(self).has_manager(Seq::<char>::empty()) ==> forall|m: int|
                    orphans@.len() <= m < all.len() ==> self.manager(
                        self.route((#[trigger] all[m]).0),
                    ).ring().contains(all[m].0@),
                old(self).has_manager(Seq::<char>::empty()) && old(self).no_shared() && entry_keys(
                    all,
                ).no_duplicates() && (forall|k: ActivityKey|
                    entry_keys(all).contains(k) ==> !old(self).holds(k)) ==> {
                    &&& self.no_shared()
                    &&& forall|m: int|
                        orphans@.len() <= m < all.len() ==> self.manager(
                            self.route((#[trigger] all[m]).0),
                        ).widget_map@.contains(all[m])
                    &&& forall|m: int| 0 <= m < orphans@.len() ==> !self.holds((#[trigger] all[m]).0@)
                },
            decreases orphans@.len(),
        {
            let ghost before = *self;
            let ghost rest0 = orphans@;
            proof {
                if old(self).has_manager(Seq::<char>::empty()) && old(self).no_shared() && entry_keys(all).no_duplicates()
                    && (forall|k: ActivityKey| entry_keys(all).contains(k) ==> !old(self).holds(k)) {
                    assert(forall|m: int| 0 <= m < orphans@.len() ==> !self.holds((#[trigger] all[m]).0@));
                    assert(forall|m: int| orphans@.len() <= m < all.len() ==> self.manager(
                        self.route((#[trigger] all[m]).0),
                    ).widget_map@.contains(all[m]));
                }
                if old(self).has_manager(Seq::<char>::empty()) {
                    assert(forall|m: int| orphans@.len() <= m < all.len() ==> self.manager(
                        self.route((#[trigger] all[m]).0),
                    ).ring().contains(all[m].0@));
                }
                if old(self).has_manager(Seq::<char>::empty()) {
                    assert forall|k: ActivityKey| (old(self).holds(k) || entry_keys(all).contains(k)) <==> (before.holds(k)
                        || entry_keys(rest0).contains(k)) by {
                        assert((old(self).holds(k) || entry_keys(all).contains(k)) <==> (self.holds(k)
                            || entry_keys(orphans@).contains(k)));
                    }
                }
            }
            let ghost n = orphans@.len() - 1;
            let (id, widget) = orphans.pop().unwrap();
            proof {
                assert(all[n] == rest0[n]);
                assert(rest0[n] == (id, widget));
            }
            self.place(&id, widget);
            proof {
                if old(self).has_manager(Seq::<char>::empty()) {
                    let t = before.names().index_of(before.route(id));
                    assert(before.has_manager(before.route(id)));
                    assert(0 <= t < before.order_managers@.len() && before.names()[t] == before.route(id));
                    assert(self.names() == before.names());
                    let after_t = self.order_managers@[t].1;
                    let before_t = before.order_managers@[t].1;
                    assert(after_t.ring().to_set() == before_t.ring().to_set().insert(id@));
                    assert forall|k: ActivityKey| before_t.ring().contains(k) implies after_t.ring().contains(k) by {
                        assert(before_t.ring().to_set().contains(k));
                        assert(before_t.ring().to_set().insert(id@).contains(k));
                        assert(after_t.ring().to_set().contains(k));
                    }
                    assert(after_t.ring().to_set().contains(id@));
                    assert forall|m: int| orphans@.len() <= m < all.len() implies self.manager(
                        self.route((#[trigger] all[m]).0),
                    ).ring().contains(all[m].0@) by {
                        let tm = before.names().index_of(before.route(all[m].0));
                        assert(self.route(all[m].0) == before.route(all[m].0));
                        if m == n {
                            assert(all[m] == (id, widget));
                        } else if tm == t {
                            assert(before.manager(before.route(all[m].0)).ring().contains(all[m].0@));
                        } else {
                            assert(before.manager(before.route(all[m].0)).ring().contains(all[m].0@));
                            assert(self.order_managers@[tm] == before.order_managers@[tm]);
                        }
                    }
                    if old(self).no_shared() && entry_keys(all).no_duplicates() && (forall|k: ActivityKey|
                        entry_keys(all).contains(k) ==> !old(self).holds(k)) {
                        assert(!before.holds(id@));
                        assert(!before_t.ring().contains(id@)) by {
                            assert(before.order_managers@[t].1.ring().contains(id@) ==> holds_in(before.order_managers@, id@));
                        }
                        assert forall|k: ActivityKey| after_t.ring().contains(k) implies (before_t.ring().contains(k) || k == id@) by {
                            assert(after_t.ring().to_set().contains(k));
                        }
                        lemma_no_shared_insert(before.order_managers@, self.order_managers@, t, id@);
                        assert(after_t.widget_map@ == before_t.widget_map@.push((id, widget)));
                        assert forall|m: int| orphans@.len() <= m < all.len() implies self.manager(
                            self.route((#[trigger] all[m]).0),
                        ).widget_map@.contains(all[m]) by {
                            let tm = before.names().index_of(before.route(all[m].0));
                            assert(self.route(all[m].0) == before.route(all[m].0));
                            if m == n {
                                assert(all[m] == (id, widget));
                                assert(after_t.widget_map@[before_t.widget_map@.len() as int] == all[m]);
                            } else if tm == t {
                                let q = choose|q: int| 0 <= q < before_t.widget_map@.len() && before_t.widget_map@[q] == all[m];
                                assert(after_t.widget_map@[q] == all[m]);
                            } else {
                                assert(self.order_managers@[tm] == before.order_managers@[tm]);
                            }
                        }
                        lemma_holds_in_insert(before.order_managers@, self.order_managers@, t, id@);
                        assert forall|m: int| 0 <= m < orphans@.len() implies !self.holds((#[trigger] all[m]).0@) by {
                            assert(!before.holds(all[m].0@));
                            assert(entry_keys(all)[m] == all[m].0@);
                            assert(entry_keys(all)[n] == id@);
                        }
                    }
                }
                assert(orphans@ =~= all.subrange(0, orphans@.len() as int));
                if old(self).has_manager(Seq::<char>::empty()) {
                    assert(before.has_manager(before.route(id)));
                    lemma_holds_in_insert(before.order_managers@, self.order_managers@, before.names().index_of(before.route(id)), id@);
                    assert(rest0 =~= orphans@.push(rest0.last()));
                    assert(rest0.last().0 == id);
                    assert(entry_keys(rest0) =~= entry_keys(orphans@).push(id@));
                    assert forall|k: ActivityKey| (old(self).holds(k) || entry_keys(all).contains(k)) <==> (#[trigger] self.holds(k)
                        || entry_keys(orphans@).contains(k)) by {
                        assert((old(self).holds(k) || entry_keys(all).contains(k)) <==> (before.holds(k)
                            || entry_keys(rest0).contains(k)));
                        assert(self.holds(k) <==> (before.holds(k) || k == id@));
                        if k == id@ {
                            assert(entry_keys(rest0)[rest0.len() - 1] == k);
                        }
                        if entry_keys(rest0).contains(k) && k != id@ {
                            let q = choose|q: int| 0 <= q < entry_keys(rest0).len() && entry_keys(rest0)[q] == k;
                            assert(entry_keys(orphans@)[q] == k);
                        }
                        if entry_keys(orphans@).contains(k) {
                            let q = choose|q: int| 0 <= q < entry_keys(orphans@).len() && entry_keys(orphans@)[q] == k;
                            assert(entry_keys(rest0)[q] == k);
                        }
                    }
                }
            }
        }
        proof {
            assert(entry_keys(orphans@) =~= Seq::<ActivityKey>::empty());
            assert(all.subrange(0, 0) =~= orphans@);
            if old(self).has_manager(Seq::<char>::empty()) {
                assert(self.names() == old(self).names());
            }
        }
    }

    /// Moves each activity that asks for a configured window other than the
    /// one that holds it to that window.
    fn relocate(&mut self)
        requires
            old(self).wf(),
            forall|n: Seq<char>| old(self).has_manager(n) <==> old(self).config.has_window(n),
        ensures
            final(self).wf(),
            final(self).config == old(self).config,
            final(self).names() == old(self).names(),
            forall|k: ActivityKey| final(self).holds(k) <==> old(self).holds(k),
            forall|i: int, j: int|
                0 <= i < final(self).order_managers@.len() && 0 <= j
                    < final(self).order_managers@[i].1.widget_map@.len() ==> !misrouted_entry(
                    (#[trigger] final(self).order_managers@[i].1.widget_map@[j]).0,
                    final(self).order_managers@[i].0@,
                    final(self).config,
                ),
            old(self).no_shared() ==> final(self).no_shared(),
            forall|t: int, q: int|
                0 <= t < old(self).order_managers@.len() && 0 <= q
                    < old(self).order_managers@[t].1.widget_map@.len() && !misrouted_entry(
                    (#[trigger] old(self).order_managers@[t].1.widget_map@[q]).0,
                    old(self).order_managers@[t].0@,
                    old(self).config,
                ) ==> final(self).order_managers@[t].1.ring().contains(
                    old(self).order_managers@[t].1.widget_map@[q].0@,
                ),
    {
        let ghost om0 = self.order_managers@;
        let mut i: usize = 0;
        while i < self.order_managers.len()
            invariant
                self.wf(),
                self.config == old(self).config,
                self.names() == old(self).names(),
                i <= self.order_managers@.len(),
                forall|n: Seq<char>| old(self).has_manager(n) <==> old(self).config.has_window(n),
                forall|k: ActivityKey| #[trigger] self.holds(k) <==> old(self).holds(k),
                forall|i2: int, j: int|
                    0 <= i2 < i && 0 <= j < self.order_managers@[i2].1.widget_map@.len()
                        ==> !misrouted_entry(
                        (#[trigger] self.order_managers@[i2].1.widget_map@[j]).0,
                        self.order_managers@[i2].0@,
                        self.config,
                    ),
                old(self).no_shared() ==> self.no_shared(),
                om0 == old(self).order_managers@,
                forall|t: int, q: int|
                    0 <= t < i && 0 <= q < om0[t].1.widget_map@.len() && !misrouted_entry(
                        (#[trigger] om0[t].1.widget_map@[q]).0,
                        om0[t].0@,
                        old(self).config,
                    ) ==> self.order_managers@[t].1.ring().contains(om0[t].1.widget_map@[q].0@),
                forall|t: int|
                    i <= t < om0.len() ==> om0[t].1.widget_map@.len() <= (#[trigger] self.order_managers@[t]).1.widget_map@.len()
                        && self.order_managers@[t].1.widget_map@.subrange(0, om0[t].1.widget_map@.len() as int)
                        == om0[t].1.widget_map@,
            decreases self.order_managers@.len() - i,
        {
            let ghost before = *self;
            let name = self.order_managers[i].0.clone();
            proof {
                assert(self.order_managers@[i as int].1.wf());
            }
            let mut taken = take_misrouted(&mut self.order_managers[i].1, &name, &self.config);
            let ghost mid = *self;
            proof {
                assert(mid.names() =~= before.names());
                self.lemma_replaced(before, i as int);
                let bi = before.order_managers@[i as int].1;
                let mi = mid.order_managers@[i as int].1;
                assert(forall|k: ActivityKey| mi.ring().contains(k) || entry_keys(taken@).contains(k) <==> bi.ring().contains(k));
                if old(self).no_shared() {
                    assert(before.no_shared());
                    lemma_no_shared_shrink(before.order_managers@, mid.order_managers@, i as int);
                    assert forall|k: ActivityKey| entry_keys(taken@).contains(k) implies !mid.holds(k) by {
                        assert(bi.ring().contains(k));
                        assert(!mi.ring().contains(k));
                        if holds_in(mid.order_managers@, k) {
                            let j = choose|j: int| 0 <= j < mid.order_managers@.len() && (#[trigger] mid.order_managers@[j]).1.ring().contains(k);
                            assert(j != i);
                            assert(mid.order_managers@[j] == before.order_managers@[j]);
                            assert(before.order_managers@[i as int].1.ring().contains(k));
                        }
                    }
                }
                assert(om0[i as int].1.widget_map@.len() <= bi.widget_map@.len());
                assert(bi.widget_map@.subrange(0, om0[i as int].1.widget_map@.len() as int) == om0[i as int].1.widget_map@);
                assert forall|t: int, q: int|
                    0 <= t <= i && 0 <= q < om0[t].1.widget_map@.len() && !misrouted_entry(
                        (#[trigger] om0[t].1.widget_map@[q]).0,
                        om0[t].0@,
                        old(self).config,
                    ) implies mid.order_managers@[t].1.ring().contains(om0[t].1.widget_map@[q].0@) by {
                    if t < i {
                        assert(mid.order_managers@[t] == before.order_managers@[t]);
                    } else {
                        assert(bi.widget_map@[q] == bi.widget_map@.subrange(0, om0[i as int].1.widget_map@.len() as int)[q]);
                        assert(bi.widget_map@[q] == om0[t].1.widget_map@[q]);
                        assert(om0[t].0@ == old(self).names()[t]);
                        assert(name@ == before.names()[t]);
                    }
                }
                assert forall|t: int| i < t < om0.len() implies om0[t].1.widget_map@.len() <= (#[trigger] mid.order_managers@[t]).1.widget_map@.len()
                    && mid.order_managers@[t].1.widget_map@.subrange(0, om0[t].1.widget_map@.len() as int)
                    == om0[t].1.widget_map@ by {
                    assert(mid.order_managers@[t] == before.order_managers@[t]);
                }
                assert forall|k: ActivityKey| (#[trigger] mid.holds(k) || entry_keys(taken@).contains(k)) <==> before.holds(k) by {
                    let a = before.order_managers@;
                    let b = mid.order_managers@;
                    assert(b[i as int].1.ring().contains(k) || entry_keys(taken@).contains(k) <==> a[i as int].1.ring().contains(k));
                    if holds_in(a, k) {
                        let j = choose|j: int| 0 <= j < a.len() && (#[trigger] a[j]).1.ring().contains(k);
                        if j != i {
                            assert(b[j] == a[j]);
                        }
                    }
                    if holds_in(b, k) {
                        let j = choose|j: int| 0 <= j < b.len() && (#[trigger] b[j]).1.ring().contains(k);
                        if j != i {
                            assert(b[j] == a[j]);
                        }
                    }
                }
            }
            while taken.len() > 0
                invariant
                    self.wf(),
                    self.config == old(self).config,
                    self.names() == old(self).names(),
                    i < self.order_managers@.len(),
                    forall|n: Seq<char>| old(self).has_manager(n) <==> old(self).config.has_window(n),
                    forall|k: ActivityKey| (#[trigger] self.holds(k) || entry_keys(taken@).contains(k)) <==> old(self).holds(k),
                    forall|m: int| 0 <= m < taken@.len() ==> misrouted_entry((#[trigger] taken@[m]).0, name@, self.config),
                    name@ == self.order_managers@[i as int].0@,
                    forall|i2: int, j: int|
                        0 <= i2 <= i && 0 <= j < self.order_managers@[i2].1.widget_map@.len()
                            ==> !misrouted_entry(
                            (#[trigger] self.order_managers@[i2].1.widget_map@[j]).0,
                            self.order_managers@[i2].0@,
                            self.config,
                        ),
                    old(self).no_shared() ==> {
                        &&& self.no_shared()
                        &&& entry_keys(taken@).no_duplicates()
                        &&& forall|k: ActivityKey| entry_keys(taken@).contains(k) ==> !self.holds(k)
                    },
                    om0 == old(self).order_managers@,
                    forall|t: int, q: int|
                        0 <= t <= i && 0 <= q < om0[t].1.widget_map@.len() && !misrouted_entry(
                            (#[trigger] om0[t].1.widget_map@[q]).0,
                            om0[t].0@,
                            old(self).config,
                        ) ==> self.order_managers@[t].1.ring().contains(om0[t].1.widget_map@[q].0@),
                    forall|t: int|
                        i < t < om0.len() ==> om0[t].1.widget_map@.len() <= (#[trigger] self.order_managers@[t]).1.widget_map@.len()
                            && self.order_managers@[t].1.widget_map@.subrange(0, om0[t].1.widget_map@.len() as int)
                            == om0[t].1.widget_map@,
                decreases taken@.len(),
            {
                let ghost before2 = *self;
                let ghost taken0 = taken@;
                proof {
                    assert forall|k: ActivityKey| (before2.holds(k) || entry_keys(taken0).contains(k)) <==> old(self).holds(k) by {
                        assert((self.holds(k) || entry_keys(taken@).contains(k)) <==> old(self).holds(k));
                    }
                }
                let (id, widget) = taken.pop().unwrap();
                proof {
                    assert(taken0 =~= taken@.push((id, widget)));
                    assert(misrouted_entry(taken0[taken0.len() - 1].0, name@, self.config));
                    let w = id.window->0@;
                    assert(self.config.has_window(w));
                    assert(self.has_manager(w));
                    assert(self.route(id) == declared_window(id));
                }
                self.place(&id, widget);
                proof {
                    let t = before2.names().index_of(before2.route(id));
                    assert(0 <= t < before2.order_managers@.len() && before2.names()[t] == before2.route(id));
                    lemma_holds_in_insert(before2.order_managers@, self.order_managers@, t, id@);
                    let bt = before2.order_managers@[t].1;
                    let at = self.order_managers@[t].1;
                    lemma_set_insert_contains(bt.ring(), at.ring(), id@);
                    assert(entry_keys(taken0) =~= entry_keys(taken@).push(id@));
                    assert(entry_keys(taken0)[taken0.len() - 1] == id@);
                    if old(self).no_shared() {
                        assert(!before2.holds(id@));
                        lemma_no_shared_insert(before2.order_managers@, self.order_managers@, t, id@);
                        assert(entry_keys(taken@) =~= entry_keys(taken0).subrange(0, taken@.len() as int));
                        assert forall|k: ActivityKey| entry_keys(taken@).contains(k) implies !self.holds(k) by {
                            let x = choose|x: int| 0 <= x < entry_keys(taken@).len() && entry_keys(taken@)[x] == k;
                            assert(entry_keys(taken0)[x] == k);
                            assert(!before2.holds(k));
                            assert(k != id@);
                        }
                    }
                    assert forall|t2: int, q: int|
                        0 <= t2 <= i && 0 <= q < om0[t2].1.widget_map@.len() && !misrouted_entry(
                            (#[trigger] om0[t2].1.widget_map@[q]).0,
                            om0[t2].0@,
                            old(self).config,
                        ) implies self.order_managers@[t2].1.ring().contains(om0[t2].1.widget_map@[q].0@) by {
                        if t2 != t {
                            assert(self.order_managers@[t2] == before2.order_managers@[t2]);
                        }
                    }
                    assert forall|t2: int| i < t2 < om0.len() implies om0[t2].1.widget_map@.len() <= (#[trigger] self.order_managers@[t2]).1.widget_map@.len()
                        && self.order_managers@[t2].1.widget_map@.subrange(0, om0[t2].1.widget_map@.len() as int)
                        == om0[t2].1.widget_map@ by {
                        if t2 != t {
                            assert(self.order_managers@[t2] == before2.order_managers@[t2]);
                        } else {
                            assert(before2.order_managers@[t2].1.widget_map@.subrange(0, om0[t2].1.widget_map@.len() as int)
                                == om0[t2].1.widget_map@);
                            assert(self.order_managers@[t2].1.widget_map@.subrange(0, om0[t2].1.widget_map@.len() as int)
                                =~= om0[t2].1.widget_map@);
                        }
                    }
                    assert forall|k: ActivityKey| (#[trigger] self.holds(k) || entry_keys(taken@).contains(k)) <==> old(self).holds(k) by {
                        assert((before2.holds(k) || entry_keys(taken0).contains(k)) <==> old(self).holds(k));
                        assert(entry_keys(taken0) =~= entry_keys(taken@).push(id@));
                        if k == id@ {
                            assert(entry_keys(taken0)[taken0.len() - 1] == k);
                        }
                        if entry_keys(taken0).contains(k) && k != id@ {
                            let q = choose|q: int| 0 <= q < entry_keys(taken0).len() && entry_keys(taken0)[q] == k;
                            assert(entry_keys(taken@)[q] == k);
                        }
                        if entry_keys(taken@).contains(k) {
                            let q = choose|q: int| 0 <= q < entry_keys(taken@).len() && entry_keys(taken@)[q] == k;
                            assert(entry_keys(taken0)[q] == k);
                        }
                    }
                    assert forall|i2: int, j: int|
                        0 <= i2 <= i && 0 <= j < self.order_managers@[i2].1.widget_map@.len()
                            implies !misrouted_entry(
                            (#[trigger] self.order_managers@[i2].1.widget_map@[j]).0,
                            self.order_managers@[i2].0@,
                            self.config,
                        ) by {
                        if i2 != t {
                            assert(self.order_managers@[i2] == before2.order_managers@[i2]);
                        } else if j < before2.order_managers@[i2].1.widget_map@.len() {
                            assert(self.order_managers@[i2].1.widget_map@[j] == before2.order_managers@[i2].1.widget_map@[j]);
                        } else {
                            assert(self.order_managers@[i2].1.widget_map@[j] == (id, widget));
                            assert(self.order_managers@[i2].0@ == before2.names()[t]);
                        }
                    }
                }
            }
            i += 1;
        }
    }

    /// Brings the windows in line with the settings: drops the windows that
    /// are no longer configured, makes those that are missing, adds the
    /// activities of the dropped windows where they are routed to, and moves
    /// each activity that asks for another configured window there.
    pub fn update_windows(&mut self)
        requires
            old(self).wf(),
        ensures
            final(self).wf(),
            final(self).synced_from(*old(self)),
    {
        let ghost s0 = *self;
        let orphans = self.drop_unconfigured();
        let ghost s1 = *self;
        self.create_missing();
        let ghost s2 = *self;
        self.readd(orphans);
        let ghost s3 = *self;
        self.relocate();
        proof {
            let e0 = Seq::<char>::empty();
            if s0.config.has_window(e0) {
                assert(s2.has_manager(e0));
            }
            if s0.config.has_window(e0) && s0.no_shared() {
                assert forall|k: ActivityKey| entry_keys(orphans@).contains(k) implies !s2.holds(k) by {
                    assert(!s1.holds(k));
                }
                assert forall|j: int, q: int|
                    0 <= j < s0.order_managers@.len() && !s0.config.has_window(s0.order_managers@[j].0@)
                        && 0 <= q < s0.order_managers@[j].1.widget_map@.len() implies {
                        let e = #[trigger] s0.order_managers@[j].1.widget_map@[q];
                        self.manager(self.route(e.0)).ring().contains(e.0@)
                    } by {
                    let e = s0.order_managers@[j].1.widget_map@[q];
                    assert(orphans@.contains(e));
                    let m = choose|m: int| 0 <= m < orphans@.len() && orphans@[m] == e;
                    assert(s3.manager(s3.route(orphans@[m].0)).widget_map@.contains(orphans@[m]));
                    let name = s3.route(e.0);
                    let t = s3.names().index_of(name);
                    assert(s3.has_manager(name));
                    assert(0 <= t < s3.order_managers@.len() && s3.names()[t] == name);
                    let q2 = choose|q2: int| 0 <= q2 < s3.order_managers@[t].1.widget_map@.len()
                        && s3.order_managers@[t].1.widget_map@[q2] == e;
                    assert(s3.order_managers@[t].0@ == name);
                    assert(!misrouted_entry(e.0, name, s3.config)) by {
                        if let Some(w) = e.0.window {
                            if !s3.has_manager(w@) {
                                assert(!s3.config.has_window(w@));
                            }
                        }
                    }
                    assert(!misrouted_entry(
                        s3.order_managers@[t].1.widget_map@[q2].0,
                        s3.order_managers@[t].0@,
                        s3.config,
                    ));
                    assert(self.route(e.0) == name);
                    assert(self.names() == s3.names());
                }
            }
        }
    }

    /// Takes new settings: brings the windows in line with them, gives each
    /// ring the layout's `max_active` and its window's `max_activities`, and
    /// sorts the rings of the windows whose settings ask for it on reload.
    pub fn update_config(&mut self, config: DynamicLayoutConfigMain)
        requires
            old(self).wf(),
            config.wf(),
        ensures
            final(self).wf(),
            final(self).config == config,
            forall|n: Seq<char>| final(self).has_manager(n) <==> config.has_window(n),
            config.has_window(Seq::<char>::empty()) ==> forall|k: ActivityKey|
                final(self).holds(k) <==> old(self).holds(k),
            forall|i: int|
                0 <= i < final(self).order_managers@.len()
                    ==> (#[trigger] final(self).order_managers@[i]).1.max_active == config.max_active,
            forall|i: int, j: int|
                0 <= i < final(self).order_managers@.len() && 0 <= j
                    < final(self).order_managers@[i].1.widget_map@.len() ==> !misrouted_entry(
                    (#[trigger] final(self).order_managers@[i].1.widget_map@[j]).0,
                    final(self).order_managers@[i].0@,
                    final(self).config,
                ),
            exists|synced: Self|
                #![trigger synced.synced_from((DynamicLayout { order_managers: old(self).order_managers, config }))]
                {
                &&& synced.wf()
                &&& synced.synced_from((DynamicLayout { order_managers: old(self).order_managers, config }))
                &&& synced.order_managers@.len() == final(self).order_managers@.len()
                &&& forall|i: int|
                    0 <= i < final(self).order_managers@.len()
                        ==> #[trigger] final(self).window_settings_applied(synced, i)
            },
            forall|i: int, c: DynamicLayoutConfig|
                0 <= i < final(self).order_managers@.len() && #[trigger] final(self).config.is_config_for(
                    final(self).order_managers@[i].0@,
                    c,
                ) && c.reorder_on_reload ==> sorted_by_rules(
                    c.activity_order@,
                    final(self).order_managers@[i].1.ring(),
                ) == final(self).order_managers@[i].1.ring(),
    {
        self.config = config;
        self.update_windows();
        let ghost synced = *self;
        let mut i: usize = 0;
        while i < self.order_managers.len()
            invariant
                self.wf(),
                self.config == config,
                i <= self.order_managers@.len(),
                self.names() == synced.names(),
                forall|k: ActivityKey| #[trigger] self.holds(k) <==> synced.holds(k),
                forall|m: int|
                    0 <= m < i ==> (#[trigger] self.order_managers@[m]).1.max_active == config.max_active,
                synced.config == config,
                self.order_managers@.len() == synced.order_managers@.len(),
                forall|m: int| 0 <= m < i ==> #[trigger] self.window_settings_applied(synced, m),
                forall|m: int| i <= m < self.order_managers@.len() ==> #[trigger] self.order_managers@[m] == synced.order_managers@[m],
                forall|i2: int, j: int|
                    0 <= i2 < self.order_managers@.len() && 0 <= j
                        < self.order_managers@[i2].1.widget_map@.len() ==> !misrouted_entry(
                        (#[trigger] self.order_managers@[i2].1.widget_map@[j]).0,
                        self.order_managers@[i2].0@,
                        self.config,
                    ),
            decreases self.order_managers@.len() - i,
        {
            let ghost before = *self;
            let name = self.order_managers[i].0.clone();
            let conf = self.config.get_for_window(name.as_str());
            let max_active = self.config.max_active;
            proof {
                assert(self.order_managers@[i as int].1.wf());
            }
            let engine = &mut self.order_managers[i].1;
            let ghost e0 = *engine;
            engine.update_config(max_active, conf.max_activities);
            let ghost e1 = *engine;
            if conf.reorder_on_reload {
                update_activity_order(engine, &conf);
            }
            proof {
                let e2 = self.order_managers@[i as int].1;
                assert(e1.ring() == e0.ring());
                if conf.reorder_on_reload {
                    lemma_sorted_keeps_entries(conf.activity_order@, e1.ring());
                    assert forall|k: ActivityKey| e2.ring().contains(k) <==> e0.ring().contains(k) by {
                        vstd::seq_lib::to_multiset_contains(e2.ring(), k);
                        vstd::seq_lib::to_multiset_contains(e1.ring(), k);
                    }
                }
                assert forall|k: ActivityKey| e2.ring().contains(k) <==> e0.ring().contains(k) by {
                    if !conf.reorder_on_reload {
                        assert(e2 == e1);
                    }
                }
                self.lemma_replaced(before, i as int);
                lemma_holds_in_same(before.order_managers@, self.order_managers@, i as int);
                assert forall|k: ActivityKey| #[trigger] self.holds(k) <==> synced.holds(k) by {
                    assert(before.holds(k) <==> synced.holds(k));
                }
                assert forall|i2: int, j: int|
                    0 <= i2 < self.order_managers@.len() && 0 <= j
                        < self.order_managers@[i2].1.widget_map@.len() implies !misrouted_entry(
                        (#[trigger] self.order_managers@[i2].1.widget_map@[j]).0,
                        self.order_managers@[i2].0@,
                        self.config,
                    ) by {
                    assert(self.order_managers@[i2].0 == before.order_managers@[i2].0);
                    assert(self.order_managers@[i2].1.widget_map == before.order_managers@[i2].1.widget_map);
                }
                assert(before.order_managers@[i as int] == synced.order_managers@[i as int]);
                assert(name@ == synced.order_managers@[i as int].0@);
                assert forall|c: DynamicLayoutConfig| #[trigger] self.config.is_config_for(synced.order_managers@[i as int].0@, c)
                    implies conf.same_as(c) by {
                    self.config.lemma_config_for_unique(name@, conf, c);
                }
                assert(self.window_settings_applied(synced, i as int));
                assert forall|m: int| 0 <= m < i + 1 implies #[trigger] self.window_settings_applied(synced, m) by {
                    if m < i {
                        assert(self.order_managers@[m] == before.order_managers@[m]);
                        assert(before.window_settings_applied(synced, m));
                    }
                }
                assert forall|m: int| i + 1 <= m < self.order_managers@.len() implies #[trigger] self.order_managers@[m] == synced.order_managers@[m] by {
                    assert(self.order_managers@[m] == before.order_managers@[m]);
                }
                assert forall|m: int| 0 <= m < i + 1 implies (#[trigger] self.order_managers@[m]).1.max_active == config.max_active by {
                    if m < i {
                        assert(self.order_managers@[m] == before.order_managers@[m]);
                    }
                }
            }
            i += 1;
        }
        proof {
            assert forall|j: int, c: DynamicLayoutConfig|
                0 <= j < self.order_managers@.len() && #[trigger] self.config.is_config_for(
                    self.order_managers@[j].0@,
                    c,
                ) && c.reorder_on_reload implies sorted_by_rules(
                    c.activity_order@,
                    self.order_managers@[j].1.ring(),
                ) == self.order_managers@[j].1.ring() by {
                assert(self.window_settings_applied(synced, j));
                assert(self.order_managers@[j].0 == synced.order_managers@[j].0);
                lemma_sorted_idempotent(c.activity_order@, synced.order_managers@[j].1.ring());
            }
        }
    }
}

} // verus!
