use vstd::prelude::*;

use crate::activity::{parsed_rule, rule_view, ActivityMatch};

verus! {

/// The time, in milliseconds, after which an expanded activity shrinks back.
pub const DEFAULT_AUTO_MINIMIZE_TIMEOUT: i32 = 5000;

/// How many activities a window shows when nothing else is set.
pub const DEFAULT_MAX_ACTIVITIES: u16 = 3;

/// How many activities a window keeps active when nothing else is set.
pub const DEFAULT_MAX_ACTIVE: u16 = 1;

/// The settings of one window.
#[derive(Debug)]
pub struct DynamicLayoutConfig {
    pub auto_minimize_timeout: i32,
    pub max_activities: u16,
    pub max_active: u16,
    pub reorder_on_add: bool,
    pub reorder_on_reload: bool,
    /// The order in which activities are sorted: those picked by the first
    /// rule come first, and so on; those that no rule picks come last.
    pub activity_order: Vec<ActivityMatch>,
}

/// A copy of a list of rules.
pub fn clone_rules(v: &Vec<ActivityMatch>) -> (r: Vec<ActivityMatch>)
    ensures
        r@ == v@,
{
    let mut r: Vec<ActivityMatch> = Vec::new();
    let mut i: usize = 0;
    while i < v.len()
        invariant
            i <= v@.len(),
            r@ == v@.subrange(0, i as int),
        decreases v@.len() - i,
    {
        r.push(v[i].clone_rule());
        proof {
            assert(r@ =~= v@.subrange(0, i + 1));
        }
        i += 1;
    }
    proof {
        assert(v@.subrange(0, v@.len() as int) =~= v@);
    }
    r
}

impl DynamicLayoutConfig {
    /// The settings of a window for which nothing is set.
    pub fn default() -> (r: DynamicLayoutConfig)
        ensures
            r.auto_minimize_timeout == DEFAULT_AUTO_MINIMIZE_TIMEOUT,
            r.max_activities == DEFAULT_MAX_ACTIVITIES,
            r.max_active == DEFAULT_MAX_ACTIVE,
            r.reorder_on_add,
            r.reorder_on_reload,
            r.activity_order@.len() == 0,
    {
        DynamicLayoutConfig {
            auto_minimize_timeout: DEFAULT_AUTO_MINIMIZE_TIMEOUT,
            max_activities: DEFAULT_MAX_ACTIVITIES,
            max_active: DEFAULT_MAX_ACTIVE,
            reorder_on_add: true,
            reorder_on_reload: true,
            activity_order: Vec::new(),
        }
    }

    /// Whether `other` holds the same settings.
    pub open spec fn same_as(&self, other: DynamicLayoutConfig) -> bool {
        &&& self.auto_minimize_timeout == other.auto_minimize_timeout
        &&& self.max_activities == other.max_activities
        &&& self.max_active == other.max_active
        &&& self.reorder_on_add == other.reorder_on_add
        &&& self.reorder_on_reload == other.reorder_on_reload
        &&& self.activity_order@ == other.activity_order@
    }

    /// How long, in milliseconds, an activity that asked for attention stays
    /// expanded: `duration` if it gave one, else the window's own timeout, or
    /// the default timeout where that is negative.
    pub fn notification_timeout(&self, duration: Option<u64>) -> (r: u64)
        ensures
            r == (match duration {
                Some(d) => d,
                None => if self.auto_minimize_timeout >= 0 {
                    self.auto_minimize_timeout as u64
                } else {
                    DEFAULT_AUTO_MINIMIZE_TIMEOUT as u64
                },
            }),
    {
        match duration {
            Some(d) => d,
            None => if self.auto_minimize_timeout >= 0 {
                self.auto_minimize_timeout as u64
            } else {
                DEFAULT_AUTO_MINIMIZE_TIMEOUT as u64
            },
        }
    }

    /// A copy of these settings.
    pub fn clone_config(&self) -> (r: DynamicLayoutConfig)
        ensures
            r.same_as(*self),
    {
        DynamicLayoutConfig {
            auto_minimize_timeout: self.auto_minimize_timeout,
            max_activities: self.max_activities,
            max_active: self.max_active,
            reorder_on_add: self.reorder_on_add,
            reorder_on_reload: self.reorder_on_reload,
            activity_order: clone_rules(&self.activity_order),
        }
    }
}

/// The settings of the layout: defaults, and the settings of each window by
/// name.
#[derive(Debug)]
pub struct DynamicLayoutConfigMain {
    pub auto_minimize_timeout: i32,
    pub max_activities: u16,
    pub max_active: u16,
    pub reorder_on_add: bool,
    pub reorder_on_reload: bool,
    pub windows: Vec<(String, DynamicLayoutConfig)>,
}

/// The names of the windows, in order.
pub open spec fn names_of<T>(windows: Seq<(String, T)>) -> Seq<Seq<char>> {
    windows.map_values(|w: (String, T)| w.0@)
}

impl DynamicLayoutConfigMain {
    /// Each window is configured once.
    pub open spec fn wf(&self) -> bool {
        names_of(self.windows@).no_duplicates()
    }

    /// Whether a window of this name is configured.
    pub open spec fn has_window(&self, name: Seq<char>) -> bool {
        names_of(self.windows@).contains(name)
    }

    /// One window, the default one (with an empty name), with default settings.
    pub fn default() -> (r: DynamicLayoutConfigMain)
        ensures
            r.wf(),
            r.auto_minimize_timeout == DEFAULT_AUTO_MINIMIZE_TIMEOUT,
            r.max_activities == DEFAULT_MAX_ACTIVITIES,
            r.max_active == DEFAULT_MAX_ACTIVE,
            r.reorder_on_add,
            r.reorder_on_reload,
            r.windows@.len() == 1,
            r.windows@[0].0@ == Seq::<char>::empty(),
            r.windows@[0].1.max_activities == DEFAULT_MAX_ACTIVITIES,
            r.windows@[0].1.max_active == DEFAULT_MAX_ACTIVE,
            r.windows@[0].1.activity_order@.len() == 0,
    {
        let mut windows: Vec<(String, DynamicLayoutConfig)> = Vec::new();
        windows.push((String::new(), DynamicLayoutConfig::default()));
        DynamicLayoutConfigMain {
            auto_minimize_timeout: DEFAULT_AUTO_MINIMIZE_TIMEOUT,
            max_activities: DEFAULT_MAX_ACTIVITIES,
            max_active: DEFAULT_MAX_ACTIVE,
            reorder_on_add: true,
            reorder_on_reload: true,
            windows,
        }
    }

    /// The settings of a window that is not named in `windows`: the defaults,
    /// with no sorting rule.
    pub fn default_conf(&self) -> (r: DynamicLayoutConfig)
        ensures
            r.auto_minimize_timeout == self.auto_minimize_timeout,
            r.max_activities == self.max_activities,
            r.max_active == self.max_active,
            r.reorder_on_add == self.reorder_on_add,
            r.reorder_on_reload == self.reorder_on_reload,
            r.activity_order@.len() == 0,
    {
        DynamicLayoutConfig {
            auto_minimize_timeout: self.auto_minimize_timeout,
            max_activities: self.max_activities,
            max_active: self.max_active,
            reorder_on_add: self.reorder_on_add,
            reorder_on_reload: self.reorder_on_reload,
            activity_order: Vec::new(),
        }
    }

    /// The position of the window `name` in `windows`, if it is configured.
    pub fn window_index(&self, name: &str) -> (r: Option<usize>)
        ensures
            match r {
                Some(i) => i < self.windows@.len() && self.windows@[i as int].0@ == name@
                    && forall|j: int| 0 <= j < i ==> self.windows@[j].0@ != name@,
                None => !self.has_window(name@),
            },
    {
        let name_string = name.to_string();
        let mut i: usize = 0;
        while i < self.windows.len()
            invariant
                i <= self.windows@.len(),
                name_string@ == name@,
                forall|j: int| 0 <= j < i ==> self.windows@[j].0@ != name@,
            decreases self.windows@.len() - i,
        {
            if self.windows[i].0 == name_string {
                return Some(i);
            }
            i += 1;
        }
        proof {
            if self.has_window(name@) {
                let j = choose|j: int|
                    0 <= j < names_of(self.windows@).len() && names_of(self.windows@)[j]
                        == name@;
                assert(self.windows@[j].0@ == name@);
            }
        }
        None
    }

    /// Whether `r` holds the settings of the window `name`: those of the first
    /// entry of that name if it is configured, else the defaults with no
    /// sorting rule.
    pub open spec fn is_config_for(&self, name: Seq<char>, r: DynamicLayoutConfig) -> bool {
        if self.has_window(name) {
            exists|i: int|
                #![trigger self.windows@[i]]
                0 <= i < self.windows@.len() && self.windows@[i].0@ == name && r.same_as(
                    self.windows@[i].1,
                ) && forall|j: int| 0 <= j < i ==> self.windows@[j].0@ != name
        } else {
            &&& r.auto_minimize_timeout == self.auto_minimize_timeout
            &&& r.max_activities == self.max_activities
            &&& r.max_active == self.max_active
            &&& r.reorder_on_add == self.reorder_on_add
            &&& r.reorder_on_reload == self.reorder_on_reload
            &&& r.activity_order@.len() == 0
        }
    }

    /// The settings of a window are determined by its name.
    pub proof fn lemma_config_for_unique(&self, name: Seq<char>, a: DynamicLayoutConfig, b: DynamicLayoutConfig)
        requires
            self.is_config_for(name, a),
            self.is_config_for(name, b),
        ensures
            a.same_as(b),
    {
        if self.has_window(name) {
            let i = choose|i: int|
                #![trigger self.windows@[i]]
                0 <= i < self.windows@.len() && self.windows@[i].0@ == name && a.same_as(
                    self.windows@[i].1,
                ) && forall|j: int| 0 <= j < i ==> self.windows@[j].0@ != name;
            let j = choose|j: int|
                #![trigger self.windows@[j]]
                0 <= j < self.windows@.len() && self.windows@[j].0@ == name && b.same_as(
                    self.windows@[j].1,
                ) && forall|m: int| 0 <= m < j ==> self.windows@[m].0@ != name;
            if i < j {
                assert(self.windows@[i].0@ != name);
            } else if j < i {
                assert(self.windows@[j].0@ != name);
            }
        } else {
            assert(a.activity_order@ =~= b.activity_order@);
        }
    }

    /// The settings of the window `name`: its own if it is configured (the
    /// first entry of that name), else the defaults with no sorting rule.
    pub fn get_for_window(&self, name: &str) -> (r: DynamicLayoutConfig)
        ensures
            self.is_config_for(name@, r),
    {
        match self.window_index(name) {
            Some(i) => {
                proof {
                    assert(names_of(self.windows@)[i as int] == name@);
                }
                let r = self.windows[i].1.clone_config();
                proof {
                    assert(self.windows@[i as int].0@ == name@ && r.same_as(self.windows@[i as int].1));
                }
                r
            },
            None => self.default_conf(),
        }
    }
}

/// What the rules written as `texts` pick, leaving out those that do not parse.
pub open spec fn kept_rules(texts: Seq<Seq<char>>) -> Seq<(Seq<char>, Option<Seq<char>>)>
    decreases texts.len(),
{
    if texts.len() == 0 {
        Seq::empty()
    } else {
        let rest = kept_rules(texts.drop_last());
        match parsed_rule(texts.last()) {
            Some(rule) => rest.push(rule),
            None => rest,
        }
    }
}

/// What each rule of `rules` picks, in the shape of `parsed_rule`.
pub open spec fn rule_views(rules: Seq<ActivityMatch>) -> Seq<Option<(Seq<char>, Option<Seq<char>>)>> {
    rules.map_values(|m: ActivityMatch| rule_view(m))
}

/// The texts of `v`.
pub open spec fn texts_of(v: Seq<String>) -> Seq<Seq<char>> {
    v.map_values(|s: String| s@)
}

/// The settings of one window as they are read: each may be left out.
#[derive(Debug, Default)]
pub struct DeDynamicLayoutConfig {
    pub auto_minimize_timeout: Option<i32>,
    pub max_activities: Option<u16>,
    pub max_active: Option<u16>,
    pub reorder_on_add: Option<bool>,
    pub reorder_on_reload: Option<bool>,
    pub activity_order: Option<Vec<String>>,
}

impl DeDynamicLayoutConfig {
    /// The rules written in `order`, leaving out those that do not parse.
    pub fn get_order(order: Option<Vec<String>>) -> (r: Vec<ActivityMatch>)
        ensures
            rule_views(r@) == (match order {
                Some(texts) => kept_rules(texts_of(texts@)).map_values(
                    |rule: (Seq<char>, Option<Seq<char>>)| Some(rule),
                ),
                None => Seq::empty(),
            }),
    {
        let mut matches: Vec<ActivityMatch> = Vec::new();
        match order {
            None => {
                assert(rule_views(matches@) =~= Seq::empty());
            },
            Some(order) => {
                let mut i: usize = 0;
                while i < order.len()
                    invariant
                        i <= order@.len(),
                        rule_views(matches@) == kept_rules(
                            texts_of(order@).subrange(0, i as int),
                        ).map_values(|rule: (Seq<char>, Option<Seq<char>>)| Some(rule)),
                    decreases order@.len() - i,
                {
                    let ghost before = matches@;
                    let ghost cur = texts_of(order@).subrange(0, i + 1);
                    assert(cur.drop_last() =~= texts_of(order@).subrange(0, i as int));
                    assert(cur.last() == order@[i as int]@);
                    match ActivityMatch::from_str(order[i].as_str()) {
                        Ok(rule) => {
                            matches.push(rule);
                            assert(kept_rules(cur) == kept_rules(cur.drop_last()).push(
                                parsed_rule(cur.last())->0,
                            ));
                            assert(rule_views(matches@) =~= rule_views(before).push(rule_view(rule)));
                            assert(rule_views(matches@) =~= kept_rules(cur).map_values(
                                |rule: (Seq<char>, Option<Seq<char>>)| Some(rule),
                            ));
                        },
                        Err(_) => {
                            assert(rule_views(matches@) =~= kept_rules(cur).map_values(
                                |rule: (Seq<char>, Option<Seq<char>>)| Some(rule),
                            ));
                        },
                    }
                    i += 1;
                }
                assert(texts_of(order@).subrange(0, order@.len() as int) =~= texts_of(order@));
            },
        }
        matches
    }
}

/// The settings of the layout as they are read.
#[derive(Debug)]
pub struct DeDynamicLayoutConfigMain {
    pub auto_minimize_timeout: i32,
    pub max_activities: u16,
    pub max_active: u16,
    pub reorder_on_add: bool,
    pub reorder_on_reload: bool,
    pub windows: Vec<(String, DeDynamicLayoutConfig)>,
}

/// `o`'s value, or `d` where it has none.
pub open spec fn or_default<T>(o: Option<T>, d: T) -> T {
    match o {
        Some(v) => v,
        None => d,
    }
}

impl DeDynamicLayoutConfigMain {
    /// Each window is named once.
    pub open spec fn wf(&self) -> bool {
        names_of(self.windows@).no_duplicates()
    }

    /// The defaults, and no window.
    pub fn default() -> (r: DeDynamicLayoutConfigMain)
        ensures
            r.wf(),
            r.auto_minimize_timeout == DEFAULT_AUTO_MINIMIZE_TIMEOUT,
            r.max_activities == DEFAULT_MAX_ACTIVITIES,
            r.max_active == DEFAULT_MAX_ACTIVE,
            r.reorder_on_add,
            r.reorder_on_reload,
            r.windows@.len() == 0,
    {
        DeDynamicLayoutConfigMain {
            auto_minimize_timeout: DEFAULT_AUTO_MINIMIZE_TIMEOUT,
            max_activities: DEFAULT_MAX_ACTIVITIES,
            max_active: DEFAULT_MAX_ACTIVE,
            reorder_on_add: true,
            reorder_on_reload: true,
            windows: Vec::new(),
        }
    }

    /// The settings in use: each window takes the layout's value for every
    /// setting it leaves out, and the default window (with an empty name) is
    /// added, with the layout's values, if it is not there.
    pub fn into_main_config(self) -> (r: DynamicLayoutConfigMain)
        requires
            self.wf(),
        ensures
            r.wf(),
            r.auto_minimize_timeout == self.auto_minimize_timeout,
            r.max_activities == self.max_activities,
            r.max_active == self.max_active,
            r.reorder_on_add == self.reorder_on_add,
            r.reorder_on_reload == self.reorder_on_reload,
            r.has_window(Seq::<char>::empty()),
            names_of(r.windows@) == (if names_of(self.windows@).contains(Seq::<char>::empty()) {
                names_of(self.windows@)
            } else {
                names_of(self.windows@).push(Seq::<char>::empty())
            }),
            forall|i: int|
                0 <= i < self.windows@.len() ==> {
                    let (_, d) = #[trigger] self.windows@[i];
                    let c = r.windows@[i].1;
                    &&& c.auto_minimize_timeout == or_default(
                        d.auto_minimize_timeout,
                        self.auto_minimize_timeout,
                    )
                    &&& c.max_activities == or_default(d.max_activities, self.max_activities)
                    &&& c.max_active == or_default(d.max_active, self.max_active)
                    &&& c.reorder_on_add == or_default(d.reorder_on_add, self.reorder_on_add)
                    &&& c.reorder_on_reload == or_default(
                        d.reorder_on_reload,
                        self.reorder_on_reload,
                    )
                    &&& rule_views(c.activity_order@) == (match d.activity_order {
                        Some(texts) => kept_rules(texts_of(texts@)).map_values(
                            |rule: (Seq<char>, Option<Seq<char>>)| Some(rule),
                        ),
                        None => Seq::empty(),
                    })
                },
    {
        let ghost old_windows = self.windows@;
        let DeDynamicLayoutConfigMain {
            auto_minimize_timeout,
            max_activities,
            max_active,
            reorder_on_add,
            reorder_on_reload,
            windows: de_windows,
        } = self;
        let mut de_windows = de_windows;
        let mut windows: Vec<(String, DynamicLayoutConfig)> = Vec::new();
        let mut rest: Vec<(String, DeDynamicLayoutConfig)> = Vec::new();
        // take the entries out in reverse, so that they come back in order
        while de_windows.len() > 0
            invariant
                de_windows@ + rest@.reverse() == old_windows,
            decreases de_windows@.len(),
        {
            let ghost before = de_windows@;
            let ghost before_rest = rest@;
            let item = de_windows.pop().unwrap();
            rest.push(item);
            proof {
                assert(before_rest.push(item).reverse() =~= seq![item] + before_rest.reverse());
                assert(before =~= de_windows@.push(item));
                assert(de_windows@ + rest@.reverse() =~= old_windows);
            }
        }
        proof {
            assert(rest@.reverse() =~= old_windows);
        }
        let mut has_default = false;
        while rest.len() > 0
            invariant
                windows@.len() + rest@.len() == old_windows.len(),
                rest@.reverse() == old_windows.subrange(windows@.len() as int, old_windows.len() as int),
                names_of(windows@) == names_of(old_windows).subrange(0, windows@.len() as int),
                has_default == names_of(windows@).contains(Seq::<char>::empty()),
                forall|i: int|
                    0 <= i < windows@.len() ==> {
                        let (_, d) = #[trigger] old_windows[i];
                        let c = windows@[i].1;
                        &&& c.auto_minimize_timeout == or_default(
                            d.auto_minimize_timeout,
                            auto_minimize_timeout,
                        )
                        &&& c.max_activities == or_default(d.max_activities, max_activities)
                        &&& c.max_active == or_default(d.max_active, max_active)
                        &&& c.reorder_on_add == or_default(d.reorder_on_add, reorder_on_add)
                        &&& c.reorder_on_reload == or_default(
                            d.reorder_on_reload,
                            reorder_on_reload,
                        )
                        &&& rule_views(c.activity_order@) == (match d.activity_order {
                            Some(texts) => kept_rules(texts_of(texts@)).map_values(
                                |rule: (Seq<char>, Option<Seq<char>>)| Some(rule),
                            ),
                            None => Seq::empty(),
                        })
                    },
            decreases rest@.len(),
        {
            let ghost n: int = windows@.len() as int;
            let ghost before = windows@;
            let ghost before_rest = rest@;
            let (name, d) = rest.pop().unwrap();
            proof {
                assert(before_rest.reverse()[0] == old_windows[n as int]);
                assert forall|j: int| 0 <= j < rest@.len() implies rest@.reverse()[j]
                    == old_windows[n + 1 + j] by {
                    assert(rest@[rest@.len() - 1 - j] == before_rest[before_rest.len() - 1 - (j
                        + 1)]);
                    assert(before_rest.reverse()[j + 1] == old_windows.subrange(
                        n,
                        old_windows.len() as int,
                    )[j + 1]);
                }
                assert(rest@.reverse() =~= old_windows.subrange(n + 1, old_windows.len() as int));
            }
            let is_default = name.unicode_len() == 0;
            let conf = DynamicLayoutConfig {
                auto_minimize_timeout: match d.auto_minimize_timeout {
                    Some(v) => v,
                    None => auto_minimize_timeout,
                },
                max_activities: match d.max_activities {
                    Some(v) => v,
                    None => max_activities,
                },
                max_active: match d.max_active {
                    Some(v) => v,
                    None => max_active,
                },
                reorder_on_add: match d.reorder_on_add {
                    Some(v) => v,
                    None => reorder_on_add,
                },
                reorder_on_reload: match d.reorder_on_reload {
                    Some(v) => v,
                    None => reorder_on_reload,
                },
                activity_order: DeDynamicLayoutConfig::get_order(d.activity_order),
            };
            windows.push((name, conf));
            proof {
                assert(names_of(windows@) =~= names_of(before).push(old_windows[n as int].0@));
                assert(names_of(windows@) =~= names_of(old_windows).subrange(0, n + 1));
                if is_default {
                    assert(names_of(windows@)[n as int] =~= Seq::<char>::empty());
                }
                if names_of(windows@).contains(Seq::<char>::empty()) && !is_default {
                    let j = choose|j: int|
                        0 <= j < names_of(windows@).len() && names_of(windows@)[j]
                            == Seq::<char>::empty();
                    assert(names_of(before)[j] == Seq::<char>::empty());
                }
                if has_default {
                    let j = choose|j: int|
                        0 <= j < names_of(before).len() && names_of(before)[j]
                            == Seq::<char>::empty();
                    assert(names_of(windows@)[j] == Seq::<char>::empty());
                }
            }
            has_default = has_default || is_default;
        }
        proof {
            assert(names_of(old_windows).subrange(0, old_windows.len() as int) =~= names_of(
                old_windows,
            ));
        }
        let ghost read = windows@;
        if !has_default {
            let default = DynamicLayoutConfig {
                auto_minimize_timeout,
                max_activities,
                max_active,
                reorder_on_add,
                reorder_on_reload,
                activity_order: Vec::new(),
            };
            windows.push((String::new(), default));
            proof {
                assert(names_of(windows@) =~= names_of(read).push(Seq::<char>::empty()));
                assert(names_of(windows@)[read.len() as int] == Seq::<char>::empty());
                crate::cycle_order::lemma_push_unique(names_of(read), Seq::<char>::empty());
            }
        }
        DynamicLayoutConfigMain {
            auto_minimize_timeout,
            max_activities,
            max_active,
            reorder_on_add,
            reorder_on_reload,
            windows,
        }
    }
}

} // verus!
