use vstd::prelude::*;
use vstd::string::{StrSliceExecFns, StringExecFns};

verus! {

/// The decimal digit of `d`, for `d < 10`.
pub open spec fn digit_char(d: nat) -> char {
    if d == 0 {
        '0'
    } else if d == 1 {
        '1'
    } else if d == 2 {
        '2'
    } else if d == 3 {
        '3'
    } else if d == 4 {
        '4'
    } else if d == 5 {
        '5'
    } else if d == 6 {
        '6'
    } else if d == 7 {
        '7'
    } else if d == 8 {
        '8'
    } else {
        '9'
    }
}

/// `n` written in decimal, with no leading zero.
pub open spec fn decimal(n: nat) -> Seq<char>
    decreases n,
{
    if n < 10 {
        seq![digit_char(n)]
    } else {
        decimal(n / 10).push(digit_char(n % 10))
    }
}

/// A colour in CSS notation: `rgb(r, g, b)`.
pub open spec fn rgb_text(c: [u8; 3]) -> Seq<char> {
    "rgb("@ + decimal(c@[0] as nat) + ", "@ + decimal(c@[1] as nat) + ", "@ + decimal(
        c@[2] as nat,
    ) + ")"@
}

fn digit_text(d: u8) -> (r: &'static str)
    requires
        d < 10,
    ensures
        r@ == seq![digit_char(d as nat)],
{
    proof {
        reveal_strlit("0");
        reveal_strlit("1");
        reveal_strlit("2");
        reveal_strlit("3");
        reveal_strlit("4");
        reveal_strlit("5");
        reveal_strlit("6");
        reveal_strlit("7");
        reveal_strlit("8");
        reveal_strlit("9");
    }
    match d {
        0 => "0",
        1 => "1",
        2 => "2",
        3 => "3",
        4 => "4",
        5 => "5",
        6 => "6",
        7 => "7",
        8 => "8",
        _ => "9",
    }
}

/// Appends `n`, written in decimal, to `s`.
fn push_decimal(s: &mut String, n: u8)
    ensures
        final(s)@ == old(s)@ + decimal(n as nat),
{
    let ghost s0 = s@;
    if n >= 100 {
        s.append(digit_text(n / 100));
        s.append(digit_text(n / 10 % 10));
        s.append(digit_text(n % 10));
        proof {
            assert(decimal(n as nat / 10) == decimal(n as nat / 100).push(digit_char(n as nat / 10 % 10)));
            assert(decimal(n as nat / 100) == seq![digit_char(n as nat / 100)]);
            assert(s@ =~= s0 + decimal(n as nat));
        }
    } else if n >= 10 {
        s.append(digit_text(n / 10));
        s.append(digit_text(n % 10));
        proof {
            assert(decimal(n as nat / 10) == seq![digit_char(n as nat / 10)]);
            assert(s@ =~= s0 + decimal(n as nat));
        }
    } else {
        s.append(digit_text(n));
        proof {
            assert(s@ =~= s0 + decimal(n as nat));
        }
    }
}

/// Writes a colour in CSS notation: `rgb(r, g, b)`.
pub fn format_rgb_color(data: [u8; 3]) -> (r: String)
    ensures
        r@ == rgb_text(data),
{
    let mut s = String::new();
    s.append("rgb(");
    push_decimal(&mut s, data[0]);
    s.append(", ");
    push_decimal(&mut s, data[1]);
    s.append(", ");
    push_decimal(&mut s, data[2]);
    s.append(")");
    proof {
        assert(s@ =~= rgb_text(data));
    }
    s
}

/// `val`, held to `[old_min, old_max]`, carried over linearly to
/// `[new_min, new_max]`, rounding down.
pub open spec fn remapped(val: u8, old_min: u8, old_max: u8, new_min: u8, new_max: u8) -> int {
    let clamped: int = if val < old_min {
        old_min as int
    } else if val > old_max {
        old_max as int
    } else {
        val as int
    };
    new_min + (clamped - old_min) * (new_max - new_min) / (old_max - old_min)
}

/// Carries `val` from the range `[old_min, old_max]` over to
/// `[new_min, new_max]`; a value outside the first range counts as its
/// nearer end.
pub fn remap_num(val: u8, old_min: u8, old_max: u8, new_min: u8, new_max: u8) -> (r: u8)
    requires
        old_min < old_max,
        new_min <= new_max,
    ensures
        r == remapped(val, old_min, old_max, new_min, new_max),
        new_min <= r <= new_max,
{
    let val = val as u16;
    let (old_min, old_max, new_min, new_max) = (
        old_min as u16,
        old_max as u16,
        new_min as u16,
        new_max as u16,
    );
    let clamped = if val < old_min {
        old_min
    } else if val > old_max {
        old_max
    } else {
        val
    };
    proof {
        assert((clamped - old_min) * (new_max - new_min) <= (old_max - old_min) * (new_max - new_min)) by (nonlinear_arith)
            requires
                clamped - old_min <= old_max - old_min,
                0 <= clamped - old_min,
                0 <= new_max - new_min,
        ;
        assert((clamped - old_min) * (new_max - new_min) <= 255 * 255) by (nonlinear_arith)
            requires
                clamped - old_min <= 255,
                0 <= clamped - old_min,
                new_max - new_min <= 255,
                0 <= new_max - new_min,
        ;
        let a = (clamped - old_min) * (new_max - new_min);
        let d = old_max - old_min;
        assert(a / d <= new_max - new_min) by (nonlinear_arith)
            requires
                a <= d * (new_max - new_min),
                d > 0,
                a >= 0,
        ;
        assert(a / d >= 0) by (nonlinear_arith)
            requires
                d > 0,
                a >= 0,
        ;
    }
    (new_min + ((clamped - old_min) * (new_max - new_min)) / (old_max - old_min)) as u8
}

/// The CSS rule for bar `b` of the visualizer: a gradient through the colours
/// of the three rows of `m` at column `b`.
pub open spec fn gradient_bar(css_class: Seq<char>, m: [[[u8; 3]; 6]; 3], b: nat) -> Seq<char> {
    "        ."@ + css_class + " .visualizer .bar-"@ + decimal(b)
        + "{\n            background-image: linear-gradient(to bottom, "@ + rgb_text(m@[0]@[b as int])
        + ", "@ + rgb_text(m@[1]@[b as int]) + ", "@ + rgb_text(m@[2]@[b as int]) + ");\n        }\n"@
}

/// The rules of the first `n` bars.
pub open spec fn gradient_bars(css_class: Seq<char>, m: [[[u8; 3]; 6]; 3], n: nat) -> Seq<char>
    decreases n,
{
    if n == 0 {
        Seq::empty()
    } else {
        gradient_bars(css_class, m, (n - 1) as nat) + gradient_bar(css_class, m, (n - 1) as nat)
    }
}

/// Appends the rule of bar `b` to `s`.
#[verifier::rlimit(50)]
fn push_gradient_bar(s: &mut String, css_class: &str, gradient_mat: &[[[u8; 3]; 6]; 3], b: usize)
    requires
        b < 6,
    ensures
        final(s)@ == old(s)@ + gradient_bar(css_class@, *gradient_mat, b as nat),
{
    let ghost s0 = s@;
    s.append("        .");
    s.append(css_class);
    s.append(" .visualizer .bar-");
    push_decimal(s, b as u8);
    s.append("{\n            background-image: linear-gradient(to bottom, ");
    let ghost s1 = s@;
    let c0 = format_rgb_color(gradient_mat[0][b]);
    s.append(c0.as_str());
    s.append(", ");
    let c1 = format_rgb_color(gradient_mat[1][b]);
    s.append(c1.as_str());
    s.append(", ");
    let c2 = format_rgb_color(gradient_mat[2][b]);
    s.append(c2.as_str());
    s.append(");\n        }\n");
    proof {
        assert(s1 =~= s0 + ("        ."@ + css_class@ + " .visualizer .bar-"@ + decimal(b as nat)
            + "{\n            background-image: linear-gradient(to bottom, "@));
        assert(s@ =~= s0 + gradient_bar(css_class@, *gradient_mat, b as nat));
    }
}

/// The CSS that colours the six bars of the visualizer with the gradients of
/// `gradient_mat`, for the elements of class `css_class`.
pub fn get_gradient_css(css_class: &str, gradient_mat: &[[[u8; 3]; 6]; 3]) -> (r: String)
    ensures
        r@ == "\n"@ + gradient_bars(css_class@, *gradient_mat, 6) + "    "@,
{
    let mut s = String::new();
    s.append("\n");
    let mut b: usize = 0;
    while b < 6
        invariant
            b <= 6,
            s@ == "\n"@ + gradient_bars(css_class@, *gradient_mat, b as nat),
        decreases 6 - b,
    {
        let ghost s0 = s@;
        push_gradient_bar(&mut s, css_class, gradient_mat, b);
        proof {
            assert(gradient_bars(css_class@, *gradient_mat, (b + 1) as nat) == gradient_bars(css_class@, *gradient_mat, b as nat) + gradient_bar(css_class@, *gradient_mat, b as nat));
            assert(s@ =~= "\n"@ + gradient_bars(css_class@, *gradient_mat, (b + 1) as nat));
        }
        b += 1;
    }
    s.append("    ");
    s
}

/// Whether `c` has the Unicode `White_Space` property.
pub open spec fn is_white(c: char) -> bool {
    ('\u{9}' <= c && c <= '\u{d}') || c == ' ' || c == '\u{85}' || c == '\u{a0}' || c == '\u{1680}'
        || ('\u{2000}' <= c && c <= '\u{200a}') || c == '\u{2028}' || c == '\u{2029}' || c
        == '\u{202f}' || c == '\u{205f}' || c == '\u{3000}'
}

fn is_whitespace(c: char) -> (r: bool)
    ensures
        r == is_white(c),
{
    (c >= '\u{9}' && c <= '\u{d}') || c == ' ' || c == '\u{85}' || c == '\u{a0}' || c == '\u{1680}'
        || (c >= '\u{2000}' && c <= '\u{200a}') || c == '\u{2028}' || c == '\u{2029}' || c
        == '\u{202f}' || c == '\u{205f}' || c == '\u{3000}'
}

/// The parts of `s` between commas; one part, `s` itself, if it has no comma.
pub open spec fn fields(s: Seq<char>) -> Seq<Seq<char>>
    decreases s.len(),
{
    if s.len() == 0 {
        seq![Seq::empty()]
    } else {
        let f = fields(s.drop_last());
        if s.last() == ',' {
            f.push(Seq::empty())
        } else {
            f.update(f.len() - 1, f.last().push(s.last()))
        }
    }
}

/// Whether `c` is an ASCII decimal digit.
pub open spec fn is_digit(c: char) -> bool {
    '0' <= c && c <= '9'
}

/// Whether `d` holds decimal digits only.
pub open spec fn all_digits(d: Seq<char>) -> bool {
    forall|i: int| 0 <= i < d.len() ==> is_digit(#[trigger] d[i])
}

/// The number that the decimal digits `d` write.
pub open spec fn digits_value(d: Seq<char>) -> nat
    decreases d.len(),
{
    if d.len() == 0 {
        0
    } else {
        digits_value(d.drop_last()) * 10 + (d.last() as nat - '0' as nat) as nat
    }
}

/// The byte that `t` writes in decimal, with an optional leading `+`, or
/// `None` if it writes none.
pub open spec fn parsed_u8(t: Seq<char>) -> Option<u8> {
    let d = if t.len() > 0 && t[0] == '+' {
        t.subrange(1, t.len() as int)
    } else {
        t
    };
    if d.len() > 0 && all_digits(d) && digits_value(d) <= 255 {
        Some(digits_value(d) as u8)
    } else {
        None
    }
}

/// The byte that `t` writes, or 0.
pub open spec fn value_or_zero(t: Seq<char>) -> u8 {
    match parsed_u8(t) {
        Some(v) => v,
        None => 0,
    }
}

/// The six numbers of a line such as `1,2,3,4,5,6`: white space is left out,
/// a part that is no byte counts as 0, and a line with another number of
/// parts gives six zeros.
pub open spec fn input_values(line: Seq<char>) -> Seq<u8> {
    let f = fields(line.filter(|c: char| !is_white(c)));
    if f.len() != 6 {
        seq![0u8, 0u8, 0u8, 0u8, 0u8, 0u8]
    } else {
        Seq::new(6, |i: int| value_or_zero(f[i]))
    }
}

proof fn lemma_not_digit(t: Seq<char>, i: int)
    requires
        t.len() > 0 && t[0] == '+' ==> 0 <= i && i + 1 < t.len() && !is_digit(t[i + 1]),
        !(t.len() > 0 && t[0] == '+') ==> 0 <= i < t.len() && !is_digit(t[i]),
    ensures
        parsed_u8(t) is None,
{
    if t.len() > 0 && t[0] == '+' {
        let d = t.subrange(1, t.len() as int);
        assert(d[i] == t[i + 1]);
        assert(!is_digit(d[i]));
        assert(!all_digits(d));
    } else {
        assert(!is_digit(t[i]));
        assert(!all_digits(t));
    }
}

/// Reads the byte that `v[start..end]` writes in decimal.
fn parse_u8_chars(v: &Vec<char>, start: usize, end: usize) -> (r: Option<u8>)
    requires
        start <= end <= v@.len(),
    ensures
        r == parsed_u8(v@.subrange(start as int, end as int)),
{
    let ghost t = v@.subrange(start as int, end as int);
    let mut first = start;
    if start < end && v[start] == '+' {
        first = start + 1;
    }
    let ghost d = v@.subrange(first as int, end as int);
    proof {
        if start < end && v@[start as int] == '+' {
            assert(d =~= t.subrange(1, t.len() as int));
        } else {
            assert(d =~= t);
        }
    }
    if first == end {
        return None;
    }
    let mut value: u16 = 0;
    let mut over = false;
    let mut j: usize = first;
    while j < end
        invariant
            first <= j <= end <= v@.len(),
            d == v@.subrange(first as int, end as int),
            t == v@.subrange(start as int, end as int),
            d == (if t.len() > 0 && t[0] == '+' {
                t.subrange(1, t.len() as int)
            } else {
                t
            }),
            forall|m: int| first <= m < j ==> is_digit(#[trigger] v@[m]),
            !over ==> value == digits_value(v@.subrange(first as int, j as int)),
            over ==> digits_value(v@.subrange(first as int, j as int)) > 255,
            value <= 255,
        decreases end - j,
    {
        let c = v[j];
        if !(c >= '0' && c <= '9') {
            proof {
                assert(d[j - first] == c);
                assert(!is_digit(d[j - first]));
                lemma_not_digit(t, j - first);
            }
            return None;
        }
        let ghost pre = v@.subrange(first as int, j as int);
        proof {
            assert(v@.subrange(first as int, j + 1).drop_last() =~= pre);
        }
        let digit = (c as u32 - '0' as u32) as u16;
        if !over {
            let next = value * 10 + digit;
            if next > 255 {
                over = true;
            } else {
                value = next;
            }
        }
        j += 1;
    }
    proof {
        assert(v@.subrange(first as int, end as int) == d);
        assert forall|i: int| 0 <= i < d.len() implies is_digit(#[trigger] d[i]) by {
            assert(d[i] == v@[first + i]);
        }
        assert(all_digits(d));
    }
    if over {
        None
    } else {
        Some(value as u8)
    }
}

/// Reads six comma-separated numbers, such as `1,2,3,4,5,6`: white space is
/// left out, a part that is no byte counts as 0, and a line with another
/// number of parts gives six zeros.
pub fn parse_input(line: &str) -> (r: [u8; 6])
    ensures
        r@ == input_values(line@),
{
    let ghost keep = |c: char| !is_white(c);
    let n = line.unicode_len();
    let mut chars: Vec<char> = Vec::new();
    let mut i: usize = 0;
    while i < n
        invariant
            i <= n,
            n == line@.len(),
            keep == (|c: char| !is_white(c)),
            chars@ == line@.subrange(0, i as int).filter(keep),
        decreases n - i,
    {
        let c = line.get_char(i);
        let ghost before = chars@;
        if !is_whitespace(c) {
            chars.push(c);
        }
        proof {
            reveal(Seq::filter);
            assert(line@.subrange(0, i + 1).drop_last() =~= line@.subrange(0, i as int));
        }
        i += 1;
    }
    proof {
        assert(line@.subrange(0, n as int) =~= line@);
    }
    let ghost s = chars@;
    let mut values: Vec<u8> = Vec::new();
    let ghost mut done: Seq<Seq<char>> = Seq::empty();
    let mut start: usize = 0;
    let mut j: usize = 0;
    proof {
        assert(s.subrange(0, 0) =~= Seq::<char>::empty());
        assert(fields(s.subrange(0, 0)) =~= done.push(s.subrange(0, 0)));
    }
    while j < chars.len()
        invariant
            s == chars@,
            start <= j <= chars@.len(),
            fields(s.subrange(0, j as int)) == done.push(s.subrange(start as int, j as int)),
            values@.len() == done.len(),
            forall|m: int| 0 <= m < done.len() ==> values@[m] == value_or_zero(#[trigger] done[m]),
        decreases chars@.len() - j,
    {
        let ghost cur = s.subrange(0, j + 1);
        proof {
            assert(cur.drop_last() =~= s.subrange(0, j as int));
            assert(cur.last() == s[j as int]);
        }
        if chars[j] == ',' {
            let v = match parse_u8_chars(&chars, start, j) {
                Some(v) => v,
                None => 0,
            };
            values.push(v);
            proof {
                done = done.push(s.subrange(start as int, j as int));
                assert(s.subrange(j + 1, j + 1) =~= Seq::<char>::empty());
                assert(fields(cur) =~= done.push(s.subrange(j + 1, j + 1)));
            }
            start = j + 1;
        } else {
            proof {
                assert(s.subrange(start as int, j + 1) =~= s.subrange(start as int, j as int).push(s[j as int]));
                assert(fields(cur) =~= done.push(s.subrange(start as int, j + 1)));
            }
        }
        j += 1;
    }
    proof {
        assert(s.subrange(0, s.len() as int) =~= s);
    }
    let last = match parse_u8_chars(&chars, start, chars.len()) {
        Some(v) => v,
        None => 0,
    };
    values.push(last);
    let ghost all = done.push(s.subrange(start as int, s.len() as int));
    proof {
        assert(all == fields(s));
        assert forall|m: int| 0 <= m < all.len() implies values@[m] == value_or_zero(#[trigger] all[m]) by {
            if m < done.len() {
                assert(all[m] == done[m]);
            }
        }
    }
    if values.len() != 6 {
        return [0u8; 6];
    }
    let r = [values[0], values[1], values[2], values[3], values[4], values[5]];
    proof {
        assert(r@ =~= input_values(line@));
    }
    r
}

} // verus!
