use std::collections::VecDeque;
use vstd::prelude::*;

use crate::activity::{keys_of, ActivityId, ActivityKey};
use crate::config::DynamicLayoutConfig;

verus! {

broadcast use vstd::seq_lib::group_to_multiset_ensures;

/// `s` with the element at `from` taken out and put back in at `to`.
pub open spec fn move_to<A>(s: Seq<A>, from: int, to: int) -> Seq<A> {
    s.remove(from).insert(to, s[from])
}

/// `s` turned by one step towards its front: the first element goes to the back.
pub open spec fn rotated_forward<A>(s: Seq<A>) -> Seq<A> {
    if s.len() <= 1 {
        s
    } else {
        s.subrange(1, s.len() as int).push(s[0])
    }
}

/// `s` turned by one step towards its back: the last element goes to the front.
pub open spec fn rotated_backward<A>(s: Seq<A>) -> Seq<A> {
    if s.len() <= 1 {
        s
    } else {
        seq![s.last()] + s.subrange(0, s.len() - 1)
    }
}

/// Pushing an element that is not there keeps a sequence free of duplicates.
pub proof fn lemma_push_unique<A>(s: Seq<A>, x: A)
    requires
        s.no_duplicates(),
        !s.contains(x),
    ensures
        s.push(x).no_duplicates(),
        forall|k: A| s.push(x).contains(k) <==> (s.contains(k) || k == x),
{
    let r = s.push(x);
    assert forall|k: A| r.contains(k) <==> (s.contains(k) || k == x) by {
        if r.contains(k) && k != x {
            let j = choose|j: int| 0 <= j < r.len() && r[j] == k;
            assert(s[j] == k);
        }
        if s.contains(k) {
            let j = choose|j: int| 0 <= j < s.len() && s[j] == k;
            assert(r[j] == k);
        }
        if k == x {
            assert(r[r.len() - 1] == k);
        }
    }
    assert forall|i: int, j: int| 0 <= i < r.len() && 0 <= j < r.len() && i != j implies r[i]
        != r[j] by {
        if i == r.len() - 1 {
            assert(s[j] == r[j]);
        } else if j == r.len() - 1 {
            assert(s[i] == r[i]);
        }
    }
}

/// Removing one element of a sequence without duplicates removes exactly that
/// element.
pub proof fn lemma_remove_unique<A>(s: Seq<A>, i: int)
    requires
        s.no_duplicates(),
        0 <= i < s.len(),
    ensures
        s.remove(i).no_duplicates(),
        forall|k: A| s.remove(i).contains(k) <==> (s.contains(k) && k != s[i]),
{
    s.remove_ensures(i);
    let r = s.remove(i);
    assert forall|k: A| r.contains(k) <==> (s.contains(k) && k != s[i]) by {
        if r.contains(k) {
            let j = choose|j: int| 0 <= j < r.len() && r[j] == k;
            if j < i {
                assert(s[j] == k);
            } else {
                assert(s[j + 1] == k);
            }
        }
        if s.contains(k) && k != s[i] {
            let j = choose|j: int| 0 <= j < s.len() && s[j] == k;
            if j < i {
                assert(r[j] == k);
            } else {
                assert(r[j - 1] == k);
            }
        }
    }
}

/// Two sequences with the same elements, each as often, agree on what they
/// contain and on having no duplicate.
pub proof fn lemma_same_multiset<A>(a: Seq<A>, b: Seq<A>)
    requires
        a.to_multiset() == b.to_multiset(),
    ensures
        a.no_duplicates() ==> b.no_duplicates(),
        forall|k: A| a.contains(k) <==> b.contains(k),
{
    assert forall|k: A| a.contains(k) <==> b.contains(k) by {
        vstd::seq_lib::to_multiset_contains(a, k);
        vstd::seq_lib::to_multiset_contains(b, k);
    }
    if a.no_duplicates() {
        a.lemma_multiset_has_no_duplicates();
        b.lemma_multiset_has_no_duplicates_conv();
    }
}

/// Turning a sequence by one step either way keeps its elements.
pub proof fn lemma_rotations<A>(s: Seq<A>)
    ensures
        rotated_forward(s).to_multiset() == s.to_multiset(),
        rotated_backward(s).to_multiset() == s.to_multiset(),
        rotated_forward(s).len() == s.len(),
        rotated_backward(s).len() == s.len(),
{
    if s.len() > 1 {
        let a = s.subrange(0, 1);
        let b = s.subrange(1, s.len() as int);
        assert(s =~= a + b);
        assert(rotated_forward(s) =~= b + a);
        vstd::seq_lib::lemma_multiset_commutative(a, b);
        vstd::seq_lib::lemma_multiset_commutative(b, a);
        let c = s.subrange(0, s.len() - 1);
        let d = s.subrange(s.len() - 1, s.len() as int);
        assert(s =~= c + d);
        assert(rotated_backward(s) =~= d + c);
        vstd::seq_lib::lemma_multiset_commutative(c, d);
        vstd::seq_lib::lemma_multiset_commutative(d, c);
    }
}

/// Turning a ring turns its identities the same way.
pub proof fn lemma_keys_rotations(s: Seq<ActivityId>)
    ensures
        keys_of(rotated_forward(s)) == rotated_forward(keys_of(s)),
        keys_of(rotated_backward(s)) == rotated_backward(keys_of(s)),
{
    assert(keys_of(rotated_forward(s)) =~= rotated_forward(keys_of(s)));
    assert(keys_of(rotated_backward(s)) =~= rotated_backward(keys_of(s)));
}

/// Moving an element to where it is changes nothing.
pub proof fn lemma_move_in_place<A>(s: Seq<A>, p: int)
    requires
        0 <= p < s.len(),
    ensures
        move_to(s, p, p) == s,
{
    s.remove_ensures(p);
    s.remove(p).insert_ensures(p, s[p]);
    assert(move_to(s, p, p) =~= s);
}

/// Moving one element keeps the same elements, each as often as before.
pub proof fn lemma_move_to<A>(s: Seq<A>, from: int, to: int)
    requires
        0 <= from < s.len(),
        0 <= to < s.len(),
    ensures
        move_to(s, from, to).len() == s.len(),
        move_to(s, from, to).to_multiset() == s.to_multiset(),
        move_to(s, from, to)[to] == s[from],
        forall|k: A| move_to(s, from, to).contains(k) <==> s.contains(k),
        s.no_duplicates() ==> move_to(s, from, to).no_duplicates(),
{
    broadcast use vstd::multiset::group_multiset_axioms;
    let x = s[from];
    let r = s.remove(from);
    s.remove_ensures(from);
    r.insert_ensures(to, x);
    vstd::seq_lib::to_multiset_remove(s, from);
    vstd::seq_lib::to_multiset_insert(r, to, x);
    vstd::seq_lib::to_multiset_contains(s, x);
    assert(r.insert(to, x).to_multiset() =~= s.to_multiset());
    assert forall|k: A| move_to(s, from, to).contains(k) <==> s.contains(k) by {
        vstd::seq_lib::to_multiset_contains(s, k);
        vstd::seq_lib::to_multiset_contains(move_to(s, from, to), k);
    }
    if s.no_duplicates() {
        s.lemma_multiset_has_no_duplicates();
        move_to(s, from, to).lemma_multiset_has_no_duplicates_conv();
    }
}

/// The position of an entry of `v` with the identity of `id`, if there is one.
fn find_key(v: &Vec<ActivityId>, id: &ActivityId) -> (r: Option<usize>)
    ensures
        match r {
            Some(j) => j < v@.len() && v@[j as int]@ == id@,
            None => !keys_of(v@).contains(id@),
        },
{
    let mut j: usize = 0;
    while j < v.len()
        invariant
            j <= v@.len(),
            forall|m: int| 0 <= m < j ==> keys_of(v@)[m] != id@,
        decreases v@.len() - j,
    {
        if v[j].same(id) {
            return Some(j);
        }
        j += 1;
    }
    None
}

/// Whether `cand` holds the activities of `ring`, each as often, in any order.
fn is_rearrangement(ring: &VecDeque<ActivityId>, cand: &Vec<ActivityId>) -> (r: bool)
    ensures
        r == (keys_of(cand@).to_multiset() == keys_of(ring@).to_multiset()),
{
    broadcast use vstd::multiset::group_multiset_axioms;

    let ghost target = keys_of(ring@).to_multiset();
    if cand.len() != ring.len() {
        proof {
            vstd::seq_lib::to_multiset_len(keys_of(cand@));
            vstd::seq_lib::to_multiset_len(keys_of(ring@));
        }
        return false;
    }
    let mut rest: Vec<ActivityId> = Vec::new();
    let mut i: usize = 0;
    while i < ring.len()
        invariant
            i <= ring@.len(),
            rest@.len() == i,
            keys_of(rest@) == keys_of(ring@).subrange(0, i as int),
        decreases ring@.len() - i,
    {
        let ghost before = rest@;
        rest.push(ring[i].clone_id());
        proof {
            assert forall|m: int| 0 <= m < i + 1 implies keys_of(rest@)[m] == keys_of(
                ring@,
            )[m] by {
                if m < i {
                    assert(keys_of(before)[m] == keys_of(ring@).subrange(0, i as int)[m]);
                }
            }
            assert(keys_of(rest@) =~= keys_of(ring@).subrange(0, i + 1));
        }
        i += 1;
    }
    assert(keys_of(rest@) =~= keys_of(ring@));
    assert(keys_of(cand@.subrange(0, 0)) =~= Seq::<ActivityKey>::empty());
    assert(keys_of(cand@.subrange(0, 0)).to_multiset().add(keys_of(rest@).to_multiset())
        =~= target);
    let mut i: usize = 0;
    while i < cand.len()
        invariant
            i <= cand@.len(),
            cand@.len() == ring@.len(),
            rest@.len() + i == cand@.len(),
            target == keys_of(ring@).to_multiset(),
            keys_of(cand@.subrange(0, i as int)).to_multiset().add(keys_of(rest@).to_multiset())
                == target,
        decreases cand@.len() - i,
    {
        let ghost k = cand@[i as int]@;
        let ghost pre = keys_of(cand@.subrange(0, i as int));
        match find_key(&rest, &cand[i]) {
            None => {
                proof {
                    let post = keys_of(cand@.subrange(i as int, cand@.len() as int));
                    assert(keys_of(cand@) =~= pre + post);
                    vstd::seq_lib::lemma_multiset_commutative(pre, post);
                    assert(post[0] == k);
                    vstd::seq_lib::to_multiset_contains(post, k);
                    vstd::seq_lib::to_multiset_contains(keys_of(rest@), k);
                    assert(keys_of(cand@).to_multiset().count(k) > target.count(k));
                }
                return false;
            },
            Some(j) => {
                let ghost before = rest@;
                rest.remove(j);
                proof {
                    assert(keys_of(rest@) =~= keys_of(before).remove(j as int));
                    assert(keys_of(cand@.subrange(0, i + 1)) =~= pre.push(k));
                    assert(keys_of(before)[j as int] == k);
                    vstd::seq_lib::to_multiset_contains(keys_of(before), k);
                    assert(pre.push(k).to_multiset().add(keys_of(rest@).to_multiset()) =~= target);
                }
            },
        }
        i += 1;
    }
    proof {
        assert(cand@.subrange(0, cand@.len() as int) =~= cand@);
        assert(keys_of(rest@) =~= Seq::<ActivityKey>::empty());
        assert(keys_of(cand@).to_multiset() =~= target);
    }
    true
}

/// What a window's container has to do to match the ring: drop the children
/// that lost their widget, append the widgets it lacks, then put the children
/// in ring order, each in its mode (active or not) and visibility.
#[derive(Debug)]
pub struct UiPlan {
    pub to_remove: Vec<ActivityId>,
    pub to_append: Vec<ActivityId>,
    /// The ring, front first; with each entry, whether it is active and
    /// whether it is shown.
    pub layout: Vec<(ActivityId, bool, bool)>,
}

/// The ring of one window: the order of its activities, and the part of that
/// order that is shown and the part that is active.
///
/// Positions `[0, max_shown)` are shown, positions
/// `[active_offset, active_offset + active)` are active, and the rest is hidden.
/// The widget map holds one visual handle per activity of the ring.
#[derive(Debug)]
pub struct CycleOrder<W> {
    pub widget_map: Vec<(ActivityId, W)>,
    pub order: VecDeque<ActivityId>,
    pub active: u16,
    pub active_offset: u16,
    pub max_shown: u16,
    pub max_active: u16,
}

impl<W> CycleOrder<W> {
    /// The identities in the ring, front first.
    pub open spec fn ring(&self) -> Seq<ActivityKey> {
        keys_of(self.order@)
    }

    /// The identities that have a widget, in the order the widgets came.
    pub open spec fn widget_keys(&self) -> Seq<ActivityKey> {
        self.widget_map@.map_values(|p: (ActivityId, W)| p.0@)
    }

    /// The widgets, in the order they came.
    pub open spec fn widgets(&self) -> Seq<W> {
        self.widget_map@.map_values(|p: (ActivityId, W)| p.1)
    }

    /// One past the last position of the active tier.
    pub open spec fn active_end(&self) -> int {
        self.active_offset + self.active
    }

    /// How many entries are shown: `max_shown`, or the whole ring if it is shorter.
    pub open spec fn shown_len(&self) -> int {
        if self.max_shown < self.ring().len() {
            self.max_shown as int
        } else {
            self.ring().len() as int
        }
    }

    /// The active entries, in ring order.
    pub open spec fn active_tier(&self) -> Seq<ActivityKey> {
        self.ring().subrange(self.active_offset as int, self.active_end())
    }

    /// The shown entries, in ring order.
    pub open spec fn shown_tier(&self) -> Seq<ActivityKey> {
        self.ring().subrange(0, self.shown_len())
    }

    /// The hidden entries, in ring order.
    pub open spec fn hidden_tier(&self) -> Seq<ActivityKey> {
        self.ring().subrange(self.shown_len(), self.ring().len() as int)
    }

    /// Whether the activity `k` is in the active tier.
    pub open spec fn is_active_key(&self, k: ActivityKey) -> bool {
        self.active_tier().contains(k)
    }

    /// Whether the activity `k` is in the shown tier.
    pub open spec fn is_shown_key(&self, k: ActivityKey) -> bool {
        self.shown_tier().contains(k)
    }

    /// Where a hidden entry goes when it is activated: the last shown slot.
    pub open spec fn shown_slot(&self, p: int) -> int {
        if p < self.max_shown {
            p
        } else if self.max_shown == 0 {
            0
        } else {
            self.max_shown - 1
        }
    }

    /// Well-formedness: the ring has no duplicate, the widget map covers the ring
    /// exactly, and the active tier lies within the shown tier and the ring.
    pub open spec fn wf(&self) -> bool {
        &&& self.ring().no_duplicates()
        &&& self.widget_keys().no_duplicates()
        &&& forall|k: ActivityKey| self.ring().contains(k) <==> self.widget_keys().contains(k)
        &&& self.active <= self.max_active <= self.max_shown
        &&& self.active_end() <= self.max_shown
        &&& self.active_end() <= self.ring().len()
    }

    /// Whether this is the empty ring that `new` makes from the settings `c`.
    pub open spec fn fresh_for(&self, c: DynamicLayoutConfig) -> bool {
        &&& self.order@.len() == 0
        &&& self.widget_map@.len() == 0
        &&& self.active == 0
        &&& self.active_offset == 0
        &&& self.max_shown == c.max_activities
        &&& self.max_active == if c.max_active < c.max_activities {
            c.max_active
        } else {
            c.max_activities
        }
    }

    /// An empty ring for a window with the given settings. The window can
    /// never have more active entries than it shows.
    pub fn new(config: &DynamicLayoutConfig) -> (r: Self)
        ensures
            r.wf(),
            r.fresh_for(*config),
            r.order@.len() == 0,
            r.widget_map@.len() == 0,
            r.max_shown == config.max_activities,
            r.max_active == if config.max_active < config.max_activities {
                config.max_active
            } else {
                config.max_activities
            },
            r.active == 0,
            r.active_offset == 0,
    {
        let max_active = if config.max_active < config.max_activities {
            config.max_active
        } else {
            config.max_activities
        };
        let r = CycleOrder {
            widget_map: Vec::new(),
            order: VecDeque::new(),
            active: 0,
            active_offset: 0,
            max_shown: config.max_activities,
            max_active,
        };
        assert(r.ring() =~= Seq::<ActivityKey>::empty());
        assert(r.widget_keys() =~= Seq::<ActivityKey>::empty());
        r
    }

    /// The position of `id` in the ring, if it is there.
    pub(crate) fn position(&self, id: &ActivityId) -> (r: Option<usize>)
        requires
            self.wf(),
        ensures
            match r {
                Some(i) => {
                    &&& i < self.ring().len()
                    &&& self.ring()[i as int] == id@
                    &&& self.ring().index_of(id@) == i
                },
                None => !self.ring().contains(id@),
            },
    {
        let mut i: usize = 0;
        while i < self.order.len()
            invariant
                self.wf(),
                i <= self.order@.len(),
                forall|j: int| 0 <= j < i ==> self.ring()[j] != id@,
            decreases self.order@.len() - i,
        {
            if self.order[i].same(id) {
                assert(self.ring()[i as int] == id@);
                assert(self.ring().contains(id@));
                let ghost c = self.ring().index_of(id@);
                assert(0 <= c < self.ring().len() && self.ring()[c] == id@);
                assert(c == i as int) by {
                    if c != i as int {
                        assert(self.ring()[c] != self.ring()[i as int]);
                    }
                }
                return Some(i);
            }
            i += 1;
        }
        None
    }

    /// Where `id` stands in the widget map, if it has a widget.
    fn widget_position(&self, id: &ActivityId) -> (r: Option<usize>)
        requires
            self.wf(),
        ensures
            match r {
                Some(i) => {
                    &&& i < self.widget_keys().len()
                    &&& self.widget_keys()[i as int] == id@
                    &&& self.widget_keys().index_of(id@) == i
                },
                None => !self.widget_keys().contains(id@),
            },
    {
        let mut i: usize = 0;
        while i < self.widget_map.len()
            invariant
                self.wf(),
                i <= self.widget_map@.len(),
                forall|j: int| 0 <= j < i ==> self.widget_keys()[j] != id@,
            decreases self.widget_map@.len() - i,
        {
            if self.widget_map[i].0.same(id) {
                assert(self.widget_keys()[i as int] == id@);
                assert(self.widget_keys().contains(id@));
                let ghost c = self.widget_keys().index_of(id@);
                assert(0 <= c < self.widget_keys().len() && self.widget_keys()[c] == id@);
                assert(c == i as int) by {
                    if c != i as int {
                        assert(self.widget_keys()[c] != self.widget_keys()[i as int]);
                    }
                }
                return Some(i);
            }
            i += 1;
        }
        None
    }

    proof fn lemma_active_at(&self, p: int)
        requires
            self.wf(),
            0 <= p < self.ring().len(),
        ensures
            self.is_active_key(self.ring()[p]) <==> (self.active_offset <= p < self.active_end()),
            self.is_shown_key(self.ring()[p]) <==> p < self.max_shown,
    {
        let k = self.ring()[p];
        if self.active_offset <= p < self.active_end() {
            assert(self.active_tier()[p - self.active_offset] == k);
        }
        if self.is_active_key(k) {
            let j = choose|j: int| 0 <= j < self.active_tier().len() && self.active_tier()[j] == k;
            assert(self.ring()[j + self.active_offset] == k);
        }
        if p < self.max_shown {
            assert(self.shown_tier()[p] == k);
        }
        if self.is_shown_key(k) {
            let j = choose|j: int| 0 <= j < self.shown_tier().len() && self.shown_tier()[j] == k;
            assert(self.ring()[j] == k);
        }
    }

    /// Whether `id` is in the active tier.
    pub fn is_active(&self, id: &ActivityId) -> (r: bool)
        requires
            self.wf(),
        ensures
            r == self.is_active_key(id@),
    {
        match self.position(id) {
            Some(pos) => {
                proof {
                    self.lemma_active_at(pos as int);
                }
                pos >= self.active_offset as usize && pos < self.active_offset as usize
                    + self.active as usize
            },
            None => false,
        }
    }

    /// Whether `id` is in the shown tier.
    pub fn is_shown(&self, id: &ActivityId) -> (r: bool)
        requires
            self.wf(),
        ensures
            r == self.is_shown_key(id@),
    {
        match self.position(id) {
            Some(pos) => {
                proof {
                    self.lemma_active_at(pos as int);
                }
                pos < self.max_shown as usize
            },
            None => false,
        }
    }

    /// Puts `id` at the back of the ring, with `widget` as its visual handle.
    /// Nothing changes if `id` is already there. The new entry is never active;
    /// it is shown if the ring, with it, is no longer than `max_shown`.
    pub fn add(&mut self, id: &ActivityId, widget: W)
        requires
            old(self).wf(),
        ensures
            final(self).wf(),
            old(self).ring().contains(id@) ==> *final(self) == *old(self),
            !old(self).ring().contains(id@) ==> {
                &&& final(self).order@ == old(self).order@.push(*id)
                &&& final(self).widget_map@ == old(self).widget_map@.push((*id, widget))
                &&& final(self).ring() == old(self).ring().push(id@)
                &&& final(self).widget_keys() == old(self).widget_keys().push(id@)
                &&& final(self).widgets() == old(self).widgets().push(widget)
                &&& final(self).active == old(self).active
                &&& final(self).active_offset == old(self).active_offset
                &&& final(self).max_shown == old(self).max_shown
                &&& final(self).max_active == old(self).max_active
                &&& !final(self).is_active_key(id@)
                &&& final(self).is_shown_key(id@) == (final(self).ring().len()
                    <= final(self).max_shown)
            },
    {
        if self.widget_position(id).is_some() {
            return;
        }
        let ghost old_self = *self;
        self.widget_map.push((id.clone_id(), widget));
        self.order.push_back(id.clone_id());
        proof {
            assert(self.ring() =~= old_self.ring().push(id@));
            assert(self.widget_keys() =~= old_self.widget_keys().push(id@));
            assert(self.widgets() =~= old_self.widgets().push(widget));
            assert(old_self.ring().contains(id@) <==> old_self.widget_keys().contains(id@));
            lemma_push_unique(old_self.ring(), id@);
            lemma_push_unique(old_self.widget_keys(), id@);
            assert forall|k: ActivityKey|
                self.ring().contains(k) <==> self.widget_keys().contains(k) by {
                assert(old_self.ring().contains(k) <==> old_self.widget_keys().contains(k));
            }
            self.lemma_active_at(self.ring().len() - 1);
        }
    }

    /// What `remove` makes of `before` for the activity `k`.
    pub open spec fn removal_of(&self, before: Self, k: ActivityKey) -> bool {
        &&& (!before.ring().contains(k) ==> *self == before)
        &&& (before.ring().contains(k) ==> ({
            let i = before.ring().index_of(k);
            let j = before.widget_keys().index_of(k);
            &&& self.order@ == before.order@.remove(i)
            &&& self.ring() == before.ring().remove(i)
            &&& self.widget_map@ == before.widget_map@.remove(j)
            &&& self.max_shown == before.max_shown
            &&& self.max_active == before.max_active
            &&& !self.ring().contains(k)
            &&& if before.is_active_key(k) {
                &&& self.active == before.active - 1
                &&& self.active_offset == before.active_offset
            } else if i < before.active_offset {
                &&& self.active == before.active
                &&& self.active_offset == before.active_offset - 1
            } else {
                &&& self.active == before.active
                &&& self.active_offset == before.active_offset
            }
        }))
    }

    /// Takes `id` out of the ring and the widget map, as `remove` does, and
    /// hands back its widget.
    pub fn take(&mut self, id: &ActivityId) -> (r: Option<W>)
        requires
            old(self).wf(),
        ensures
            final(self).wf(),
            r is Some <==> old(self).ring().contains(id@),
            r is Some ==> r->0 == old(self).widget_map@[old(self).widget_keys().index_of(id@)].1,
            final(self).removal_of(*old(self), id@),
    {
        let pos = match self.position(id) {
            Some(p) => p,
            None => {
                return None;
            },
        };
        let j = match self.widget_position(id) {
            Some(j) => j,
            None => {
                return None;
            },
        };
        let was_active = self.is_active(id);
        proof {
            self.lemma_active_at(pos as int);
        }
        let ghost old_self = *self;
        if was_active {
            self.active = self.active - 1;
        } else if pos < self.active_offset as usize {
            self.active_offset = self.active_offset - 1;
        }
        let (_, widget) = self.widget_map.remove(j);
        self.order.remove(pos);
        proof {
            assert(self.ring() =~= old_self.ring().remove(pos as int));
            assert(self.widget_keys() =~= old_self.widget_keys().remove(j as int));
            lemma_remove_unique(old_self.ring(), pos as int);
            lemma_remove_unique(old_self.widget_keys(), j as int);
            assert forall|k: ActivityKey|
                self.ring().contains(k) <==> self.widget_keys().contains(k) by {
                assert(old_self.ring().contains(k) <==> old_self.widget_keys().contains(k));
            }
        }
        Some(widget)
    }

    /// Takes `id` out of the ring and the widget map; nothing changes if it is
    /// not there. The active tier stays on the same entries: it loses one if
    /// `id` was active, and moves one place to the front if `id` stood before it.
    pub fn remove(&mut self, id: &ActivityId)
        requires
            old(self).wf(),
        ensures
            final(self).wf(),
            final(self).removal_of(*old(self), id@),
    {
        let _ = self.take(id);
    }

    /// Moves the entry at `from` to `to`, shifting those between by one.
    fn move_entry(&mut self, from: usize, to: usize)
        requires
            from < old(self).order@.len(),
            to < old(self).order@.len(),
        ensures
            final(self).order@ == move_to(old(self).order@, from as int, to as int),
            final(self).ring() == move_to(old(self).ring(), from as int, to as int),
            final(self).widget_map == old(self).widget_map,
            final(self).active == old(self).active,
            final(self).active_offset == old(self).active_offset,
            final(self).max_shown == old(self).max_shown,
            final(self).max_active == old(self).max_active,
    {
        let ghost s = self.order@;
        let item = self.order.remove(from).unwrap();
        self.order.insert(to, item);
        proof {
            s.remove_ensures(from as int);
            s.remove(from as int).insert_ensures(to as int, item);
            keys_of(s).remove_ensures(from as int);
            keys_of(s).remove(from as int).insert_ensures(to as int, item@);
            assert(self.ring() =~= move_to(keys_of(s), from as int, to as int));
        }
    }

    proof fn lemma_active_in_ring(&self, k: ActivityKey)
        requires
            self.wf(),
            self.is_active_key(k),
        ensures
            self.ring().contains(k),
    {
        let j = choose|j: int| 0 <= j < self.active_tier().len() && self.active_tier()[j] == k;
        assert(self.ring()[j + self.active_offset] == k);
    }

    /// After the ring was rearranged and nothing else changed, the state is
    /// still well formed.
    proof fn lemma_rearranged(&self, before: Self)
        requires
            before.wf(),
            self.ring().to_multiset() == before.ring().to_multiset(),
            self.widget_map == before.widget_map,
            self.active_end() <= self.max_shown,
            self.active <= self.max_active <= self.max_shown,
            self.active_end() <= self.ring().len(),
        ensures
            self.wf(),
            forall|k: ActivityKey| self.ring().contains(k) <==> before.ring().contains(k),
    {
        lemma_same_multiset(before.ring(), self.ring());
        assert forall|k: ActivityKey|
            self.ring().contains(k) <==> self.widget_keys().contains(k) by {
            assert(before.ring().contains(k) <==> before.widget_keys().contains(k));
        }
    }

    /// What `activate` makes of `before` for the activity `k`.
    pub open spec fn activation_of(&self, before: Self, k: ActivityKey) -> bool {
        &&& (!before.ring().contains(k) || before.is_active_key(k) ==> *self
            == before)
        &&& (self.widget_map == before.widget_map)
        &&& (self.max_shown == before.max_shown)
        &&& (self.max_active == before.max_active)
        &&& (self.order@.to_multiset() == before.order@.to_multiset())
        &&& (self.ring().to_multiset() == before.ring().to_multiset())
        &&& (before.ring().contains(k) && !before.is_active_key(k) ==> ({
            let off = before.active_offset as int;
            let n = before.active as int;
            let start_pos = before.ring().index_of(k);
            let slot_pos = before.shown_slot(start_pos);
            let s1 = move_to(before.ring(), start_pos, slot_pos);
            let grows = n < before.max_active;
            &&& n == 0 ==> {
                &&& self.ring() == s1
                &&& self.active_offset == slot_pos
                &&& self.active == (if grows {
                    1int
                } else {
                    0int
                })
            }
            &&& (n > 0 && slot_pos < off) ==> {
                &&& self.ring() == move_to(s1, slot_pos, off - 1)
                &&& self.active_offset == off - 1
                &&& self.active == (if grows {
                    n + 1
                } else {
                    n
                })
            }
            &&& (n > 0 && slot_pos >= off + n) ==> {
                &&& self.ring() == move_to(s1, slot_pos, off + n)
                &&& self.active_offset == (if grows {
                    off
                } else {
                    off + 1
                })
                &&& self.active == (if grows {
                    n + 1
                } else {
                    n
                })
            }
            &&& (n > 0 && off <= slot_pos < off + n) ==> {
                &&& self.ring() == s1
                &&& self.active_offset == off
                &&& self.active == n
            }
            &&& before.max_active > 0 ==> self.is_active_key(k)
        }))
    }

    /// Makes `id` active; nothing changes if it is active already or not in
    /// the ring.
    ///
    /// A hidden entry first moves to the last shown slot. Then it joins the
    /// active tier from the side it stands on: from the front it goes just
    /// before the tier, from the back just after it. The tier grows by one if
    /// it has room; if not, it drops the entry at its other end. Where the
    /// tier reaches the last shown slot, the move to that slot already puts the
    /// entry in the tier, and the entry it pushed out leaves it; the tier then
    /// keeps its place and size. An empty tier starts at the entry.
    pub fn activate(&mut self, id: &ActivityId)
        requires
            old(self).wf(),
        ensures
            final(self).wf(),
            final(self).activation_of(*old(self), id@),
    {
        if self.is_active(id) {
            return;
        }
        let idx = match self.position(id) {
            Some(i) => i,
            None => {
                return;
            },
        };
        let ghost s0 = self.ring();
        let ghost v0 = self.order@;
        let ghost old_self = *self;
        let mut pos = idx;
        if idx >= self.max_shown as usize {
            let slot: usize = if self.max_shown == 0 {
                0
            } else {
                self.max_shown as usize - 1
            };
            self.move_entry(idx, slot);
            pos = slot;
        }
        proof {
            if idx < old_self.max_shown {
                lemma_move_in_place(s0, idx as int);
            }
            lemma_move_to(s0, idx as int, pos as int);
            lemma_move_to(v0, idx as int, pos as int);
            self.lemma_rearranged(old_self);
        }
        let ghost s1 = self.ring();
        let ghost v1 = self.order@;
        let ghost mid_self = *self;
        let ghost final_pos: int = pos as int;
        if self.active > 0 {
            if pos < self.active_offset as usize {
                let to = self.active_offset as usize - 1;
                self.move_entry(pos, to);
                self.active_offset = self.active_offset - 1;
                if self.active < self.max_active {
                    self.active = self.active + 1;
                }
                proof {
                    final_pos = to as int;
                }
            } else if pos >= self.active_offset as usize + self.active as usize {
                let to = self.active_offset as usize + self.active as usize;
                self.move_entry(pos, to);
                if self.active < self.max_active {
                    self.active = self.active + 1;
                } else {
                    self.active_offset = self.active_offset + 1;
                }
                proof {
                    final_pos = to as int;
                }
            }
        } else {
            self.active_offset = pos as u16;
            if self.active < self.max_active {
                self.active = self.active + 1;
            }
        }
        proof {
            lemma_move_to(s1, pos as int, final_pos);
            lemma_move_to(v1, pos as int, final_pos);
            if final_pos == pos {
                lemma_move_in_place(s1, pos as int);
                lemma_move_in_place(v1, pos as int);
            }
            self.lemma_rearranged(mid_self);
            assert(self.ring()[final_pos] == id@);
            if self.max_active > 0 {
                self.lemma_active_at(final_pos);
            }
        }
    }

    /// What `deactivate` makes of `before` for the activity `k`.
    pub open spec fn deactivation_of(&self, before: Self, k: ActivityKey) -> bool {
        &&& (!before.is_active_key(k) ==> *self == before)
        &&& (self.widget_map == before.widget_map)
        &&& (self.max_shown == before.max_shown)
        &&& (self.max_active == before.max_active)
        &&& (self.order@.to_multiset() == before.order@.to_multiset())
        &&& (self.ring().to_multiset() == before.ring().to_multiset())
        &&& (before.is_active_key(k) ==> ({
            let off = before.active_offset as int;
            let n = before.active as int;
            let p = before.ring().index_of(k);
            &&& self.active == n - 1
            &&& if p - off <= off + n - 1 - p {
                &&& self.ring() == move_to(before.ring(), p, off)
                &&& self.active_offset == off + 1
            } else {
                &&& self.ring() == move_to(before.ring(), p, off + n - 1)
                &&& self.active_offset == off
            }
            &&& !self.is_active_key(k)
            &&& self.is_shown_key(k)
        }))
    }

    /// Takes `id` out of the active tier; nothing changes if it is not active.
    /// It moves to the nearer end of the tier (the front end on a tie), and
    /// the tier gives up that end, so `id` stays shown.
    pub fn deactivate(&mut self, id: &ActivityId)
        requires
            old(self).wf(),
        ensures
            final(self).wf(),
            final(self).deactivation_of(*old(self), id@),
    {
        if !self.is_active(id) {
            return;
        }
        proof {
            self.lemma_active_in_ring(id@);
        }
        let idx = match self.position(id) {
            Some(i) => i,
            None => {
                return;
            },
        };
        proof {
            self.lemma_active_at(idx as int);
        }
        let ghost s0 = self.ring();
        let ghost v0 = self.order@;
        let ghost old_self = *self;
        let dist_to_left = idx - self.active_offset as usize;
        let dist_to_right = self.active as usize - dist_to_left - 1;
        let to: usize;
        if dist_to_left <= dist_to_right {
            to = self.active_offset as usize;
            self.move_entry(idx, to);
            self.active_offset = self.active_offset + 1;
        } else {
            to = self.active_offset as usize + self.active as usize - 1;
            self.move_entry(idx, to);
        }
        self.active = self.active - 1;
        proof {
            lemma_move_to(s0, idx as int, to as int);
            lemma_move_to(v0, idx as int, to as int);
            self.lemma_rearranged(old_self);
            assert(self.ring()[to as int] == id@);
            self.lemma_active_at(to as int);
        }
    }

    /// Turns the ring one step: the front entry goes to the back. The tiers
    /// keep their positions, so the entries in them change. Nothing changes on
    /// a ring of one entry or none.
    pub fn next(&mut self)
        requires
            old(self).wf(),
        ensures
            final(self).wf(),
            final(self).order@ == rotated_forward(old(self).order@),
            final(self).ring() == rotated_forward(old(self).ring()),
            final(self).widget_map == old(self).widget_map,
            final(self).active == old(self).active,
            final(self).active_offset == old(self).active_offset,
            final(self).max_shown == old(self).max_shown,
            final(self).max_active == old(self).max_active,
    {
        let ghost old_self = *self;
        if self.order.len() > 1 {
            let front = self.order.pop_front().unwrap();
            self.order.push_back(front);
        }
        proof {
            assert(self.order@ =~= rotated_forward(old_self.order@));
            lemma_keys_rotations(old_self.order@);
            lemma_rotations(old_self.ring());
            self.lemma_rearranged(old_self);
        }
    }

    /// Turns the ring one step the other way: the back entry goes to the
    /// front. Nothing changes on a ring of one entry or none.
    pub fn previous(&mut self)
        requires
            old(self).wf(),
        ensures
            final(self).wf(),
            final(self).order@ == rotated_backward(old(self).order@),
            final(self).ring() == rotated_backward(old(self).ring()),
            final(self).widget_map == old(self).widget_map,
            final(self).active == old(self).active,
            final(self).active_offset == old(self).active_offset,
            final(self).max_shown == old(self).max_shown,
            final(self).max_active == old(self).max_active,
    {
        let ghost old_self = *self;
        if self.order.len() > 1 {
            let back = self.order.pop_back().unwrap();
            self.order.push_front(back);
        }
        proof {
            assert(self.order@ =~= rotated_backward(old_self.order@));
            lemma_keys_rotations(old_self.order@);
            lemma_rotations(old_self.ring());
            self.lemma_rearranged(old_self);
        }
    }

    /// Takes new limits. `max_shown` is raised to `max_active` where it is
    /// smaller, the active tier is cut down to `max_active` entries, and it
    /// moves towards the front as far as it must to stay within the shown
    /// tier.
    pub fn update_config(&mut self, max_active: u16, max_shown: u16)
        requires
            old(self).wf(),
        ensures
            final(self).wf(),
            final(self).max_active == max_active,
            final(self).max_shown == (if max_shown < max_active {
                max_active
            } else {
                max_shown
            }),
            final(self).active == (if old(self).active < max_active {
                old(self).active
            } else {
                max_active
            }),
            final(self).active_offset == (if old(self).active_offset + final(self).active
                > final(self).max_shown {
                final(self).max_shown - final(self).active
            } else {
                old(self).active_offset as int
            }),
            final(self).order == old(self).order,
            final(self).widget_map == old(self).widget_map,
    {
        let max_shown = if max_shown < max_active {
            max_active
        } else {
            max_shown
        };
        self.max_active = max_active;
        self.max_shown = max_shown;
        if self.active > max_active {
            self.active = max_active;
        }
        if self.active_offset as u32 + self.active as u32 > max_shown as u32 {
            self.active_offset = max_shown - self.active;
        }
    }

    /// Puts the ring in the order of `order`, if that holds the activities of
    /// the ring, each once; otherwise nothing changes. The tiers keep their
    /// positions, so the entries in them may change.
    pub fn update_order(&mut self, order: Vec<ActivityId>)
        requires
            old(self).wf(),
        ensures
            final(self).wf(),
            keys_of(order@).to_multiset() != old(self).ring().to_multiset() ==> *final(self)
                == *old(self),
            keys_of(order@).to_multiset() == old(self).ring().to_multiset() ==> {
                &&& final(self).ring() == keys_of(order@)
                &&& final(self).widget_map == old(self).widget_map
                &&& final(self).active == old(self).active
                &&& final(self).active_offset == old(self).active_offset
                &&& final(self).max_shown == old(self).max_shown
                &&& final(self).max_active == old(self).max_active
            },
    {
        if !is_rearrangement(&self.order, &order) {
            return;
        }
        let ghost old_self = *self;
        proof {
            vstd::seq_lib::to_multiset_len(keys_of(order@));
            vstd::seq_lib::to_multiset_len(self.ring());
        }
        self.order.clear();
        let mut i: usize = 0;
        while i < order.len()
            invariant
                i <= order@.len(),
                self.order@.len() == i,
                self.ring() == keys_of(order@).subrange(0, i as int),
                self.widget_map == old_self.widget_map,
                self.active == old_self.active,
                self.active_offset == old_self.active_offset,
                self.max_shown == old_self.max_shown,
                self.max_active == old_self.max_active,
            decreases order@.len() - i,
        {
            let ghost before = self.ring();
            self.order.push_back(order[i].clone_id());
            proof {
                assert forall|m: int| 0 <= m < i + 1 implies self.ring()[m] == keys_of(
                    order@,
                )[m] by {
                    if m < i {
                        assert(before[m] == keys_of(order@).subrange(0, i as int)[m]);
                    }
                }
                assert(self.ring() =~= keys_of(order@).subrange(0, i + 1));
            }
            i += 1;
        }
        proof {
            assert(self.ring() =~= keys_of(order@));
            self.lemma_rearranged(old_self);
        }
    }

    /// The activities of the ring, front first.
    pub fn list_activities(&self) -> (r: Vec<ActivityId>)
        ensures
            keys_of(r@) == self.ring(),
    {
        let mut r: Vec<ActivityId> = Vec::new();
        let mut i: usize = 0;
        while i < self.order.len()
            invariant
                i <= self.order@.len(),
                r@.len() == i,
                keys_of(r@) == self.ring().subrange(0, i as int),
            decreases self.order@.len() - i,
        {
            let ghost before = r@;
            r.push(self.order[i].clone_id());
            proof {
                assert forall|m: int| 0 <= m < i + 1 implies keys_of(r@)[m] == self.ring()[m] by {
                    if m < i {
                        assert(keys_of(before)[m] == self.ring().subrange(0, i as int)[m]);
                    }
                }
                assert(keys_of(r@) =~= self.ring().subrange(0, i + 1));
            }
            i += 1;
        }
        proof {
            assert(self.ring().subrange(0, self.ring().len() as int) =~= self.ring());
        }
        r
    }

    /// Gives up the ring, handing out each activity with its widget.
    pub fn into_entries(self) -> (r: Vec<(ActivityId, W)>)
        ensures
            r@ == self.widget_map@,
    {
        self.widget_map
    }

    /// Whether the ring is empty.
    pub fn is_empty(&self) -> (r: bool)
        ensures
            r == (self.ring().len() == 0),
    {
        self.order.len() == 0
    }

    /// The activities of the ring with their widgets.
    pub fn get_widget_map(&self) -> (r: &Vec<(ActivityId, W)>)
        ensures
            r == &self.widget_map,
    {
        &self.widget_map
    }

    /// The steps that bring a container whose children stand for `children`
    /// in line with this ring.
    pub fn ui_plan(&self, children: &Vec<ActivityId>) -> (r: UiPlan)
        requires
            self.wf(),
        ensures
            keys_of(r.to_remove@) == keys_of(children@).filter(
                |k: ActivityKey| !self.widget_keys().contains(k),
            ),
            keys_of(r.to_append@) == self.widget_keys().filter(
                |k: ActivityKey| !keys_of(children@).contains(k),
            ),
            r.layout@.len() == self.ring().len(),
            forall|i: int|
                0 <= i < r.layout@.len() ==> {
                    &&& (#[trigger] r.layout@[i]).0@ == self.ring()[i]
                    &&& r.layout@[i].1 == (self.active_offset <= i < self.active_end())
                    &&& r.layout@[i].2 == (i < self.max_shown)
                },
    {
        let ghost keep = |k: ActivityKey| !self.widget_keys().contains(k);
        let ghost missing = |k: ActivityKey| !keys_of(children@).contains(k);
        let mut to_remove: Vec<ActivityId> = Vec::new();
        let mut i: usize = 0;
        while i < children.len()
            invariant
                i <= children@.len(),
                self.wf(),
                keys_of(to_remove@) == keys_of(children@).subrange(0, i as int).filter(keep),
                keep == (|k: ActivityKey| !self.widget_keys().contains(k)),
            decreases children@.len() - i,
        {
            let ghost before = to_remove@;
            let ghost pre = keys_of(children@).subrange(0, i as int);
            let ghost cur = keys_of(children@).subrange(0, i + 1);
            let in_map = self.widget_position(&children[i]).is_some();
            if !in_map {
                to_remove.push(children[i].clone_id());
            }
            proof {
                reveal(Seq::filter);
                assert(cur.drop_last() =~= pre);
                assert(cur.last() == children@[i as int]@);
                if !in_map {
                    assert(keys_of(to_remove@) =~= keys_of(before).push(children@[i as int]@));
                } else {
                    assert(keys_of(to_remove@) =~= keys_of(before));
                }
            }
            i += 1;
        }
        proof {
            assert(keys_of(children@).subrange(0, children@.len() as int) =~= keys_of(children@));
        }
        let mut to_append: Vec<ActivityId> = Vec::new();
        let mut i: usize = 0;
        while i < self.widget_map.len()
            invariant
                i <= self.widget_map@.len(),
                self.wf(),
                keys_of(to_append@) == self.widget_keys().subrange(0, i as int).filter(missing),
                missing == (|k: ActivityKey| !keys_of(children@).contains(k)),
            decreases self.widget_map@.len() - i,
        {
            let ghost before = to_append@;
            let ghost pre = self.widget_keys().subrange(0, i as int);
            let ghost cur = self.widget_keys().subrange(0, i + 1);
            let res = find_key(children, &self.widget_map[i].0);
            let found = res.is_some();
            proof {
                if let Some(j) = res {
                    assert(keys_of(children@)[j as int] == self.widget_map@[i as int].0@);
                }
            }
            if !found {
                to_append.push(self.widget_map[i].0.clone_id());
            }
            proof {
                reveal(Seq::filter);
                assert(cur.drop_last() =~= pre);
                assert(cur.last() == self.widget_map@[i as int].0@);
                if !found {
                    assert(keys_of(to_append@) =~= keys_of(before).push(
                        self.widget_map@[i as int].0@,
                    ));
                } else {
                    assert(keys_of(to_append@) =~= keys_of(before));
                }
            }
            i += 1;
        }
        proof {
            assert(self.widget_keys().subrange(0, self.widget_map@.len() as int)
                =~= self.widget_keys());
        }
        let mut layout: Vec<(ActivityId, bool, bool)> = Vec::new();
        let mut i: usize = 0;
        while i < self.order.len()
            invariant
                i <= self.order@.len(),
                self.wf(),
                layout@.len() == i,
                forall|m: int|
                    0 <= m < i ==> {
                        &&& (#[trigger] layout@[m]).0@ == self.ring()[m]
                        &&& layout@[m].1 == (self.active_offset <= m < self.active_end())
                        &&& layout@[m].2 == (m < self.max_shown)
                    },
            decreases self.order@.len() - i,
        {
            let active = i >= self.active_offset as usize && i < self.active_offset as usize
                + self.active as usize;
            let shown = i < self.max_shown as usize;
            layout.push((self.order[i].clone_id(), active, shown));
            i += 1;
        }
        UiPlan { to_remove, to_append, layout }
    }
}

/// In every well-formed state the active tier lies inside the shown tier, and
/// the shown tier inside the ring: `active_offset + active` is at most
/// `max_shown` and at most the length of the ring.
pub proof fn lemma_tier_containment<W>(o: CycleOrder<W>)
    requires
        o.wf(),
    ensures
        o.active_end() <= o.shown_len(),
        o.shown_len() <= o.max_shown,
        o.shown_len() <= o.ring().len(),
        o.shown_tier() + o.hidden_tier() == o.ring(),
        forall|k: ActivityKey| o.is_active_key(k) ==> o.is_shown_key(k),
{
    assert(o.shown_tier() + o.hidden_tier() =~= o.ring());
    assert forall|k: ActivityKey| o.is_active_key(k) implies o.is_shown_key(k) by {
        let j = choose|j: int| 0 <= j < o.active_tier().len() && o.active_tier()[j] == k;
        assert(o.shown_tier()[j + o.active_offset] == k);
    }
}

/// The ring of a well-formed state holds each activity at most once.
pub proof fn lemma_ring_unique<W>(o: CycleOrder<W>)
    requires
        o.wf(),
    ensures
        o.ring().no_duplicates(),
        o.ring().len() == o.ring().to_set().len(),
{
    o.ring().unique_seq_to_set();
}

/// In a well-formed state the activities with a widget are exactly those of
/// the ring.
pub proof fn lemma_widget_map_parity<W>(o: CycleOrder<W>)
    requires
        o.wf(),
    ensures
        o.ring().to_set() == o.widget_keys().to_set(),
{
    assert(o.ring().to_set() =~= o.widget_keys().to_set()) by {
        assert forall|k: ActivityKey| o.ring().to_set().contains(k) <==> o.widget_keys().to_set().contains(k) by {
            assert(o.ring().contains(k) <==> o.widget_keys().contains(k));
        }
    }
}

/// A well-formed state never has more active entries than `max_active`, nor
/// more shown entries than `max_shown`.
pub proof fn lemma_capacity<W>(o: CycleOrder<W>)
    requires
        o.wf(),
    ensures
        o.active_tier().len() == o.active,
        o.active <= o.max_active,
        o.shown_tier().len() <= o.max_shown,
{
}

/// Turning a ring one step and back, in either order, gives the ring back.
pub proof fn lemma_rotation_round_trip<A>(s: Seq<A>)
    ensures
        rotated_backward(rotated_forward(s)) == s,
        rotated_forward(rotated_backward(s)) == s,
{
    if s.len() > 1 {
        assert(rotated_backward(rotated_forward(s)) =~= s);
        assert(rotated_forward(rotated_backward(s)) =~= s);
    }
}

/// `next` followed by `previous` restores the ring order and the tier
/// boundaries: here `mid` is what `next` makes of `before`, and `after` what
/// `previous` makes of `mid`.
pub proof fn lemma_next_then_previous<W>(before: CycleOrder<W>, mid: CycleOrder<W>, after: CycleOrder<W>)
    requires
        mid.order@ == rotated_forward(before.order@),
        mid.widget_map == before.widget_map,
        mid.active == before.active,
        mid.active_offset == before.active_offset,
        mid.max_shown == before.max_shown,
        mid.max_active == before.max_active,
        after.order@ == rotated_backward(mid.order@),
        after.widget_map == mid.widget_map,
        after.active == mid.active,
        after.active_offset == mid.active_offset,
        after.max_shown == mid.max_shown,
        after.max_active == mid.max_active,
    ensures
        after.order@ == before.order@,
        after.widget_map == before.widget_map,
        after.active == before.active,
        after.active_offset == before.active_offset,
        after.max_shown == before.max_shown,
        after.max_active == before.max_active,
{
    lemma_rotation_round_trip(before.order@);
}

/// `previous` followed by `next` restores the ring order and the tier
/// boundaries: here `mid` is what `previous` makes of `before`, and `after`
/// what `next` makes of `mid`.
pub proof fn lemma_previous_then_next<W>(before: CycleOrder<W>, mid: CycleOrder<W>, after: CycleOrder<W>)
    requires
        mid.order@ == rotated_backward(before.order@),
        mid.widget_map == before.widget_map,
        mid.active == before.active,
        mid.active_offset == before.active_offset,
        mid.max_shown == before.max_shown,
        mid.max_active == before.max_active,
        after.order@ == rotated_forward(mid.order@),
        after.widget_map == mid.widget_map,
        after.active == mid.active,
        after.active_offset == mid.active_offset,
        after.max_shown == mid.max_shown,
        after.max_active == mid.max_active,
    ensures
        after.order@ == before.order@,
        after.widget_map == before.widget_map,
        after.active == before.active,
        after.active_offset == before.active_offset,
        after.max_shown == before.max_shown,
        after.max_active == before.max_active,
{
    lemma_rotation_round_trip(before.order@);
}

} // verus!
