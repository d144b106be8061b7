use vstd::prelude::*;
use vstd::string::StrSliceExecFns;

verus! {

/// Whether `a` and `b` hold the same characters.
pub fn str_eq(a: &str, b: &str) -> (r: bool)
    ensures
        r == (a@ == b@),
{
    let n = a.unicode_len();
    if n != b.unicode_len() {
        return false;
    }
    let mut i: usize = 0;
    while i < n
        invariant
            i <= n,
            n == a@.len(),
            n == b@.len(),
            forall|j: int| 0 <= j < i ==> a@[j] == b@[j],
        decreases n - i,
    {
        if a.get_char(i) != b.get_char(i) {
            return false;
        }
        i += 1;
    }
    assert(a@ =~= b@);
    true
}


/// Relies on `String::push`: it appends `c` to `s`.
#[verifier::external_body]
pub(crate) fn push_char(s: &mut String, c: char)
    ensures
        final(s)@ == old(s)@.push(c),
{
    s.push(c)
}

/// A menu label without its mnemonic marks: an underscore is dropped unless
/// the character before it is an underscore too, so `__` gives one `_`.
pub open spec fn label_without_mnemonics(s: Seq<char>) -> Seq<char>
    decreases s.len(),
{
    if s.len() == 0 {
        Seq::empty()
    } else {
        let rest = label_without_mnemonics(s.drop_last());
        let i = s.len() - 1;
        let previous = if i == 0 {
            ' '
        } else {
            s[i - 1]
        };
        if s[i] == '_' && previous != '_' {
            rest
        } else {
            rest.push(s[i])
        }
    }
}

/// Drops the mnemonic marks of a menu label: each underscore that does not
/// follow another underscore.
pub fn strip_underscore_from_label(label: &str) -> (r: String)
    ensures
        r@ == label_without_mnemonics(label@),
{
    let n = label.unicode_len();
    let mut r = String::new();
    let mut i: usize = 0;
    while i < n
        invariant
            i <= n,
            n == label@.len(),
            r@ == label_without_mnemonics(label@.subrange(0, i as int)),
        decreases n - i,
    {
        let c = label.get_char(i);
        let previous = if i == 0 {
            ' '
        } else {
            label.get_char(i - 1)
        };
        let ghost cur = label@.subrange(0, i + 1);
        proof {
            assert(cur.drop_last() =~= label@.subrange(0, i as int));
            assert(cur[i as int] == c);
            if i > 0 {
                assert(cur[i - 1] == previous);
            }
        }
        if !(c == '_' && previous != '_') {
            push_char(&mut r, c);
        }
        i += 1;
    }
    proof {
        assert(label@.subrange(0, n as int) =~= label@);
    }
    r
}

} // verus!
