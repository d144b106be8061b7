use vstd::prelude::*;

use crate::activity::{declared_window, ActivityId};

verus! {

/// Whether `desired` asks, for the window `w`, for more than `idx` instances.
pub open spec fn wanted(desired: Seq<(String, usize)>, w: Seq<char>, idx: nat) -> bool {
    exists|j: int| 0 <= j < desired.len() && (#[trigger] desired[j]).0@ == w && desired[j].1 > idx
}

/// Whether `a` is an instance that `desired` no longer asks for.
pub open spec fn unwanted(desired: Seq<(String, usize)>, a: ActivityId) -> bool {
    !wanted(desired, declared_window(a), a.instance->0 as nat)
}

/// The highest instance number among the activities of `current` in the
/// window `w`, if it has any.
pub open spec fn max_instance(current: Seq<ActivityId>, w: Seq<char>) -> Option<nat>
    decreases current.len(),
{
    if current.len() == 0 {
        None
    } else {
        let m = max_instance(current.drop_last(), w);
        let a = current.last();
        if declared_window(a) == w {
            let i = a.instance->0 as nat;
            match m {
                Some(x) => Some(if x > i { x } else { i }),
                None => Some(i),
            }
        } else {
            m
        }
    }
}

/// The first instance number that a window may still need: one past the
/// highest it has, or 0 if it has none.
pub open spec fn first_missing(current: Seq<ActivityId>, w: Seq<char>) -> nat {
    match max_instance(current, w) {
        Some(m) => m + 1,
        None => 0,
    }
}

/// The instances to make for the windows of `desired`, as (window, number):
/// for each, those from `first_missing` up to the number asked for.
pub open spec fn instances_to_add(current: Seq<ActivityId>, desired: Seq<(String, usize)>) -> Seq<
    (Seq<char>, nat),
>
    decreases desired.len(),
{
    if desired.len() == 0 {
        Seq::empty()
    } else {
        let (w, count) = desired.last();
        let first = first_missing(current, w@);
        instances_to_add(current, desired.drop_last()) + Seq::new(
            if count > first {
                (count - first) as nat
            } else {
                0
            },
            |i: int| (w@, (first + i) as nat),
        )
    }
}

/// The views of the pairs of `v`.
pub open spec fn pairs_view(v: Seq<(String, usize)>) -> Seq<(Seq<char>, nat)> {
    v.map_values(|p: (String, usize)| (p.0@, p.1 as nat))
}

/// Whether `desired` asks, for the window `w`, for more than `idx` instances.
fn is_wanted(desired: &Vec<(String, usize)>, w: &String, idx: usize) -> (r: bool)
    ensures
        r == wanted(desired@, w@, idx as nat),
{
    let mut j: usize = 0;
    while j < desired.len()
        invariant
            j <= desired@.len(),
            forall|m: int| 0 <= m < j ==> !((#[trigger] desired@[m]).0@ == w@ && desired@[m].1 > idx),
        decreases desired@.len() - j,
    {
        if desired[j].0 == *w && desired[j].1 > idx {
            return true;
        }
        j += 1;
    }
    false
}

/// The highest instance number among the activities of `current` in the
/// window `w`, if it has any.
fn highest_instance(current: &Vec<ActivityId>, w: &String) -> (r: Option<usize>)
    requires
        forall|m: int| 0 <= m < current@.len() ==> (#[trigger] current@[m]).instance is Some,
    ensures
        match r {
            Some(x) => max_instance(current@, w@) == Some(x as nat),
            None => max_instance(current@, w@) is None,
        },
{
    let mut best: Option<usize> = None;
    let mut j: usize = 0;
    while j < current.len()
        invariant
            j <= current@.len(),
            forall|m: int| 0 <= m < current@.len() ==> (#[trigger] current@[m]).instance is Some,
            match best {
                Some(x) => max_instance(current@.subrange(0, j as int), w@) == Some(x as nat),
                None => max_instance(current@.subrange(0, j as int), w@) is None,
            },
        decreases current@.len() - j,
    {
        let a = &current[j];
        let ghost cur = current@.subrange(0, j + 1);
        proof {
            assert(cur.drop_last() =~= current@.subrange(0, j as int));
            assert(cur.last() == current@[j as int]);
            assert(current@[j as int].instance is Some);
        }
        let name = a.window_name();
        if name == *w {
            let i = match a.instance {
                Some(i) => i,
                None => 0,
            };
            best = match best {
                Some(x) => Some(if x > i { x } else { i }),
                None => Some(i),
            };
        }
        j += 1;
    }
    proof {
        assert(current@.subrange(0, current@.len() as int) =~= current@);
    }
    best
}

/// Compares the instances that run with those the settings ask for.
/// `desired` gives, for each window, how many instances it should have.
/// Returns the running instances that are no longer asked for, and the
/// (window, number) of each instance to make: those past the highest number
/// that the window already has.
pub fn activities_to_update(current: &Vec<ActivityId>, desired: &Vec<(String, usize)>) -> (r: (
    Vec<ActivityId>,
    Vec<(String, usize)>,
))
    requires
        forall|m: int| 0 <= m < current@.len() ==> (#[trigger] current@[m]).instance is Some,
    ensures
        r.0@ == current@.filter(|a: ActivityId| unwanted(desired@, a)),
        pairs_view(r.1@) == instances_to_add(current@, desired@),
{
    let ghost drop = |a: ActivityId| unwanted(desired@, a);
    let mut to_remove: Vec<ActivityId> = Vec::new();
    let mut j: usize = 0;
    while j < current.len()
        invariant
            j <= current@.len(),
            forall|m: int| 0 <= m < current@.len() ==> (#[trigger] current@[m]).instance is Some,
            drop == (|a: ActivityId| unwanted(desired@, a)),
            to_remove@ == current@.subrange(0, j as int).filter(drop),
        decreases current@.len() - j,
    {
        let a = &current[j];
        let ghost cur = current@.subrange(0, j + 1);
        let ghost before = to_remove@;
        proof {
            assert(cur.drop_last() =~= current@.subrange(0, j as int));
            assert(cur.last() == current@[j as int]);
            assert(current@[j as int].instance is Some);
        }
        let idx = match a.instance {
            Some(i) => i,
            None => 0,
        };
        let name = a.window_name();
        if !is_wanted(desired, &name, idx) {
            to_remove.push(a.clone_id());
        }
        proof {
            reveal(Seq::filter);
        }
        j += 1;
    }
    proof {
        assert(current@.subrange(0, current@.len() as int) =~= current@);
    }
    let mut to_add: Vec<(String, usize)> = Vec::new();
    let mut d: usize = 0;
    while d < desired.len()
        invariant
            d <= desired@.len(),
            forall|m: int| 0 <= m < current@.len() ==> (#[trigger] current@[m]).instance is Some,
            pairs_view(to_add@) == instances_to_add(current@, desired@.subrange(0, d as int)),
        decreases desired@.len() - d,
    {
        let ghost base = to_add@;
        let ghost ds = desired@.subrange(0, d + 1);
        let w = &desired[d].0;
        let count = desired[d].1;
        proof {
            assert(ds.drop_last() =~= desired@.subrange(0, d as int));
            assert(ds.last() == desired@[d as int]);
        }
        let highest = highest_instance(current, w);
        let ghost first = first_missing(current@, w@);
        let mut i: usize = 0;
        while i < count
            invariant
                i <= count,
                first == first_missing(current@, w@),
                match highest {
                    Some(x) => first == x + 1,
                    None => first == 0,
                },
                pairs_view(to_add@) == pairs_view(base) + Seq::new(
                    if i > first {
                        (i - first) as nat
                    } else {
                        0
                    },
                    |k: int| (w@, (first + k) as nat),
                ),
            decreases count - i,
        {
            let ghost before = to_add@;
            let add = match highest {
                Some(x) => i > x,
                None => true,
            };
            if add {
                to_add.push((w.clone(), i));
                proof {
                    assert(pairs_view(to_add@) =~= pairs_view(before).push((w@, i as nat)));
                    assert(pairs_view(to_add@) =~= pairs_view(base) + Seq::new(
                        (i + 1 - first) as nat,
                        |k: int| (w@, (first + k) as nat),
                    ));
                }
            } else {
                proof {
                    assert(Seq::new(
                        if i + 1 > first {
                            (i + 1 - first) as nat
                        } else {
                            0
                        },
                        |k: int| (w@, (first + k) as nat),
                    ) =~= Seq::new(
                        if i > first {
                            (i - first) as nat
                        } else {
                            0
                        },
                        |k: int| (w@, (first + k) as nat),
                    ));
                }
            }
            i += 1;
        }
        proof {
            assert(pairs_view(to_add@) =~= instances_to_add(current@, ds));
        }
        d += 1;
    }
    proof {
        assert(desired@.subrange(0, desired@.len() as int) =~= desired@);
    }
    (to_remove, to_add)
}

} // verus!
