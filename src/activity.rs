use vstd::prelude::*;
use vstd::string::{StrSliceExecFns, StringExecFns};

verus! {

/// What identifies an activity: its module name and its activity name.
pub type ActivityKey = (Seq<char>, Seq<char>);

/// An activity, identified by its module and activity names. The declared
/// window and the instance number are metadata: they take no part in the
/// identity.
#[derive(Debug, Clone)]
pub struct ActivityId {
    pub module: String,
    pub activity: String,
    pub window: Option<String>,
    pub instance: Option<usize>,
}

impl View for ActivityId {
    type V = ActivityKey;

    open spec fn view(&self) -> ActivityKey {
        (self.module@, self.activity@)
    }
}

/// The window that `id` asks for; empty when it names none.
pub open spec fn declared_window(id: ActivityId) -> Seq<char> {
    match id.window {
        Some(w) => w@,
        None => Seq::empty(),
    }
}

/// The identities of a sequence of activities, in order.
pub open spec fn keys_of(s: Seq<ActivityId>) -> Seq<ActivityKey> {
    s.map_values(|a: ActivityId| a@)
}

impl ActivityId {
    /// The activity `activity` of the module `module`, with no window asked
    /// for and no instance number.
    pub fn new(module: &str, activity: &str) -> (r: ActivityId)
        ensures
            r.module@ == module@,
            r.activity@ == activity@,
            r.window is None,
            r.instance is None,
    {
        ActivityId {
            module: module.to_string(),
            activity: activity.to_string(),
            window: None,
            instance: None,
        }
    }

    /// The activity `activity` of the module `module`, asking for the window
    /// `window`.
    pub fn with_window(module: &str, activity: &str, window: &str) -> (r: ActivityId)
        ensures
            r.module@ == module@,
            r.activity@ == activity@,
            r.window is Some,
            r.window->0@ == window@,
            r.instance is None,
    {
        ActivityId {
            module: module.to_string(),
            activity: activity.to_string(),
            window: Some(window.to_string()),
            instance: None,
        }
    }

    /// This activity as instance number `instance` of its kind.
    pub fn with_instance(self, instance: usize) -> (r: ActivityId)
        ensures
            r == (ActivityId { instance: Some(instance), ..self }),
    {
        ActivityId { instance: Some(instance), ..self }
    }

    /// The name of the module the activity belongs to.
    pub fn module(&self) -> (r: &String)
        ensures
            r@ == self.module@,
    {
        &self.module
    }

    /// The name of the activity within its module.
    pub fn activity(&self) -> (r: &String)
        ensures
            r@ == self.activity@,
    {
        &self.activity
    }

    /// The window this activity asks to be placed in; empty when it names none.
    pub fn window_name(&self) -> (r: String)
        ensures
            r@ == declared_window(*self),
    {
        match &self.window {
            Some(w) => w.clone(),
            None => String::new(),
        }
    }

    /// A copy of this value, fields included.
    pub fn clone_id(&self) -> (r: ActivityId)
        ensures
            r == *self,
    {
        let window = match &self.window {
            Some(w) => Some(w.clone()),
            None => None,
        };
        ActivityId {
            module: self.module.clone(),
            activity: self.activity.clone(),
            window,
            instance: self.instance,
        }
    }

    /// Whether two values name the same activity.
    pub fn same(&self, other: &ActivityId) -> (r: bool)
        ensures
            r == (self@ == other@),
    {
        self.module == other.module && self.activity == other.activity
    }
}

/// The code of `c` once ASCII upper-case letters are made lower-case.
pub open spec fn ascii_lower_code(c: char) -> u32 {
    if 'A' <= c && c <= 'Z' {
        (c as u32 + 32) as u32
    } else {
        c as u32
    }
}

/// Whether `a` and `b` are equal up to the case of ASCII letters.
pub open spec fn same_ignoring_ascii_case(a: Seq<char>, b: Seq<char>) -> bool {
    &&& a.len() == b.len()
    &&& forall|i: int| 0 <= i < a.len() ==> ascii_lower_code(a[i]) == ascii_lower_code(b[i])
}

fn lower_code(c: char) -> (r: u32)
    ensures
        r == ascii_lower_code(c),
{
    if c >= 'A' && c <= 'Z' {
        c as u32 + 32
    } else {
        c as u32
    }
}

/// Compares two strings, taking ASCII upper-case and lower-case letters as equal.
pub fn eq_ignore_ascii_case(a: &str, b: &str) -> (r: bool)
    ensures
        r == same_ignoring_ascii_case(a@, b@),
{
    let n = a.unicode_len();
    if n != b.unicode_len() {
        return false;
    }
    let mut i: usize = 0;
    while i < n
        invariant
            i <= n,
            n == a@.len(),
            n == b@.len(),
            forall|j: int| 0 <= j < i ==> ascii_lower_code(a@[j]) == ascii_lower_code(b@[j]),
        decreases n - i,
    {
        if lower_code(a.get_char(i)) != lower_code(b.get_char(i)) {
            return false;
        }
        i += 1;
    }
    true
}

/// A rule that picks activities: one activity, every activity of a module, or
/// any activity.
#[derive(Debug)]
pub enum ActivityMatch {
    Activity(ActivityId),
    Module(String),
    Other,
}

/// Whether `rule` picks the activity `k`; names are compared without regard
/// to the case of ASCII letters.
pub open spec fn rule_matches(rule: ActivityMatch, k: ActivityKey) -> bool {
    match rule {
        ActivityMatch::Activity(id) => same_ignoring_ascii_case(k.0, id.module@)
            && same_ignoring_ascii_case(k.1, id.activity@),
        ActivityMatch::Module(module) => same_ignoring_ascii_case(k.0, module@),
        ActivityMatch::Other => true,
    }
}

/// Whether `p` is the position of the only `@` in `s`.
pub open spec fn sole_at(s: Seq<char>, p: int) -> bool {
    &&& 0 <= p < s.len()
    &&& s[p] == '@'
    &&& forall|j: int| 0 <= j < s.len() && j != p ==> s[j] != '@'
}

/// The rule that the text `s` writes, as its module and, for one activity,
/// its activity name: `activity@module` for one activity, a bare `module` for
/// a module; `None` for text with more than one `@`.
pub open spec fn parsed_rule(s: Seq<char>) -> Option<(Seq<char>, Option<Seq<char>>)> {
    if !s.contains('@') {
        Some((s, None))
    } else if exists|p: int| sole_at(s, p) {
        let p = choose|p: int| sole_at(s, p);
        Some((s.subrange(p + 1, s.len() as int), Some(s.subrange(0, p))))
    } else {
        None
    }
}

/// What a rule picks, in the shape of `parsed_rule`; `None` for the rule that
/// picks any activity.
pub open spec fn rule_view(rule: ActivityMatch) -> Option<(Seq<char>, Option<Seq<char>>)> {
    match rule {
        ActivityMatch::Activity(id) => Some((id.module@, Some(id.activity@))),
        ActivityMatch::Module(module) => Some((module@, None)),
        ActivityMatch::Other => None,
    }
}

/// The first position of `c` in `s`, if any.
fn find_char(s: &str, c: char) -> (r: Option<usize>)
    ensures
        match r {
            Some(p) => p < s@.len() && s@[p as int] == c && forall|j: int|
                0 <= j < p ==> s@[j] != c,
            None => !s@.contains(c),
        },
{
    let n = s.unicode_len();
    let mut i: usize = 0;
    while i < n
        invariant
            i <= n,
            n == s@.len(),
            forall|j: int| 0 <= j < i ==> s@[j] != c,
        decreases n - i,
    {
        if s.get_char(i) == c {
            return Some(i);
        }
        i += 1;
    }
    None
}

impl ActivityMatch {
    /// Reads a rule: `activity@module` picks one activity, a bare `module`
    /// every activity of that module. Text with more than one `@` is refused.
    pub fn from_str(s: &str) -> (r: Result<ActivityMatch, String>)
        ensures
            r is Ok <==> parsed_rule(s@) is Some,
            r is Ok ==> rule_view(r->Ok_0) == parsed_rule(s@),
            match parsed_rule(s@) {
                Some((module, Some(activity))) => r matches Ok(ActivityMatch::Activity(id)) && id.module@
                    == module && id.activity@ == activity && id.window is None,
                Some((module, None)) => r matches Ok(ActivityMatch::Module(m)) && m@ == module,
                None => r is Err,
            },
    {
        match find_char(s, '@') {
            None => Ok(ActivityMatch::Module(s.to_string())),
            Some(p) => {
                let n = s.unicode_len();
                let activity = s.substring_char(0, p);
                let module = s.substring_char(p + 1, n);
                proof {
                    assert(s@.contains('@'));
                }
                match find_char(module, '@') {
                    Some(q) => {
                        proof {
                            assert(s@[p + 1 + q] == '@');
                            assert forall|other: int| !sole_at(s@, other) by {
                                if sole_at(s@, other) {
                                    assert(other == p);
                                }
                            }
                        }
                        Err("invalid match".to_string())
                    },
                    None => {
                        proof {
                            assert forall|j: int| 0 <= j < s@.len() && j != p implies s@[j]
                                != '@' by {
                                if j > p {
                                    assert(module@[j - p - 1] == s@[j]);
                                }
                            }
                            assert(sole_at(s@, p as int));
                            let other = choose|other: int| sole_at(s@, other);
                            assert(other == p);
                        }
                        Ok(ActivityMatch::Activity(ActivityId::new(module, activity)))
                    },
                }
            },
        }
    }

    /// Whether this rule picks `id`.
    pub fn contains(&self, id: &ActivityId) -> (r: bool)
        ensures
            r == rule_matches(*self, id@),
    {
        match self {
            ActivityMatch::Activity(activity_id) => eq_ignore_ascii_case(
                id.module.as_str(),
                activity_id.module.as_str(),
            ) && eq_ignore_ascii_case(id.activity.as_str(), activity_id.activity.as_str()),
            ActivityMatch::Module(module) => eq_ignore_ascii_case(
                id.module.as_str(),
                module.as_str(),
            ),
            ActivityMatch::Other => true,
        }
    }

    /// The rule as text, as `from_str` reads it: `activity@module`, `module`,
    /// or `*` for any activity.
    pub fn to_string(&self) -> (r: String)
        ensures
            r@ == (match *self {
                ActivityMatch::Activity(id) => id.activity@ + "@"@ + id.module@,
                ActivityMatch::Module(m) => m@,
                ActivityMatch::Other => "*"@,
            }),
    {
        match self {
            ActivityMatch::Activity(id) => {
                let mut s = id.activity.clone();
                s.append("@");
                s.append(id.module.as_str());
                s
            },
            ActivityMatch::Module(m) => m.clone(),
            ActivityMatch::Other => "*".to_string(),
        }
    }

    /// A copy of this rule.
    pub fn clone_rule(&self) -> (r: ActivityMatch)
        ensures
            r == *self,
    {
        match self {
            ActivityMatch::Activity(id) => ActivityMatch::Activity(id.clone_id()),
            ActivityMatch::Module(m) => ActivityMatch::Module(m.clone()),
            ActivityMatch::Other => ActivityMatch::Other,
        }
    }
}

} // verus!
