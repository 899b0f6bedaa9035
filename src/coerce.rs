//! Field coercion: raw element text to optional typed values.
use vstd::prelude::*;
use vstd::std_specs::iter::IteratorSpec;

verus! {

broadcast use vstd::string::axiom_spec_iter, vstd::string::next_postcondition;

/// Characters with the Unicode `White_Space` property.
pub open spec fn is_white_space(c: char) -> bool {
    let u = c as u32;
    (0x09 <= u <= 0x0d) || u == 0x20 || u == 0x85 || u == 0xa0 || u == 0x1680 || (0x2000 <= u
        <= 0x200a) || u == 0x2028 || u == 0x2029 || u == 0x202f || u == 0x205f || u == 0x3000
}

pub open spec fn trim_start(s: Seq<char>) -> Seq<char>
    decreases s.len(),
{
    if s.len() > 0 && is_white_space(s[0]) {
        trim_start(s.drop_first())
    } else {
        s
    }
}

pub open spec fn trim_end(s: Seq<char>) -> Seq<char>
    decreases s.len(),
{
    if s.len() > 0 && is_white_space(s.last()) {
        trim_end(s.drop_last())
    } else {
        s
    }
}

/// `s` without its leading and trailing white space.
pub open spec fn trimmed(s: Seq<char>) -> Seq<char> {
    trim_end(trim_start(s))
}

/// Relies on `str::trim`: removes leading and trailing `White_Space` characters.
#[verifier::external_body]
pub(crate) fn trim(s: &str) -> (r: String)
    ensures
        r@ == trimmed(s@),
{
    s.trim().to_string()
}

/// The characters of `s`, in order.
pub fn chars_of(s: &str) -> (r: Vec<char>)
    ensures
        r@ == s@,
{
    let mut it = s.chars();
    let mut out: Vec<char> = Vec::new();
    loop
        invariant
            out@ + it.remaining() == s@,
            it.decrease() is Some,
        ensures
            out@ == s@,
        decreases it.decrease()->0,
    {
        match it.next() {
            Some(c) => {
                out.push(c);
            },
            None => {
                assert(out@ =~= s@);
                break ;
            },
        }
    }
    out
}


pub open spec fn is_digit(c: char) -> bool {
    '0' <= c <= '9'
}

pub open spec fn is_sign(c: char) -> bool {
    c == '+' || c == '-'
}

pub open spec fn all_digits(s: Seq<char>) -> bool {
    forall|i: int| 0 <= i < s.len() ==> is_digit(#[trigger] s[i])
}

/// The number that a run of decimal digits denotes.
pub open spec fn digits_value(s: Seq<char>) -> int
    decreases s.len(),
{
    if s.len() == 0 {
        0
    } else {
        digits_value(s.drop_last()) * 10 + (s.last() as int - '0' as int)
    }
}

/// The value of a base-10 integer literal: an optional sign, then one or more digits.
pub open spec fn int_literal(s: Seq<char>) -> Option<int> {
    if s.len() > 0 && is_sign(s[0]) {
        let d = s.drop_first();
        if d.len() > 0 && all_digits(d) {
            Some(if s[0] == '-' { -digits_value(d) } else { digits_value(d) })
        } else {
            None
        }
    } else if s.len() > 0 && all_digits(s) {
        Some(digits_value(s))
    } else {
        None
    }
}

/// What `parse_int` gives for the text `t`.
pub open spec fn int_of(t: Seq<char>) -> Option<i32> {
    match int_literal(trimmed(t)) {
        Some(v) => if i32::MIN <= v <= i32::MAX {
            Some(v as i32)
        } else {
            None
        },
        None => None,
    }
}

proof fn lemma_digits_value_grows(s: Seq<char>, k: int)
    requires
        all_digits(s),
        0 <= k <= s.len(),
    ensures
        0 <= digits_value(s.subrange(0, k)) <= digits_value(s),
    decreases s.len(),
{
    if s.len() > 0 {
        let p = s.drop_last();
        assert(all_digits(p)) by {
            assert forall|i: int| 0 <= i < p.len() implies is_digit(#[trigger] p[i]) by {
                assert(p[i] == s[i]);
            }
        }
        if k < s.len() {
            assert(s.subrange(0, k) =~= p.subrange(0, k));
            lemma_digits_value_grows(p, k);
        } else {
            assert(s.subrange(0, k) =~= s);
            lemma_digits_value_grows(p, p.len() as int);
            assert(p.subrange(0, p.len() as int) =~= p);
        }
        assert(is_digit(s[s.len() - 1]));
    }
}

/// `parse_int` gives a value only where the trimmed text is a base-10 integer
/// literal, and then the literal's value.
pub proof fn lemma_int_only_from_literal(t: Seq<char>)
    ensures
        int_of(t) is Some ==> int_literal(trimmed(t)) == Some(int_of(t)->0 as int),
        int_literal(trimmed(t)) is None ==> int_of(t) is None,
{
}

/// Reads the digits of `v` from index `start` on, as a number of at most
/// `limit`; `None` where a character is no digit or the number exceeds `limit`.
fn digits_upto(v: &Vec<char>, start: usize, limit: i64) -> (r: Option<i64>)
    requires
        start <= v.len(),
        0 <= limit < 0x1_0000_0000,
    ensures
        ({
            let d = v@.subrange(start as int, v.len() as int);
            match r {
                Some(n) => all_digits(d) && n == digits_value(d) && 0 <= n <= limit,
                None => !all_digits(d) || digits_value(d) > limit,
            }
        }),
{
    let ghost d = v@.subrange(start as int, v.len() as int);
    let mut acc: i64 = 0;
    let mut i: usize = start;
    while i < v.len()
        invariant
            start <= i <= v.len(),
            d == v@.subrange(start as int, v.len() as int),
            0 <= limit < 0x1_0000_0000,
            all_digits(d.subrange(0, i - start)),
            acc == digits_value(d.subrange(0, i - start)),
            0 <= acc <= limit,
        decreases v.len() - i,
    {
        let c = v[i];
        if !('0' <= c && c <= '9') {
            assert(d[i - start] == c);
            return None;
        }
        let ghost p = d.subrange(0, i - start + 1);
        assert(p.drop_last() =~= d.subrange(0, i - start));
        let n: i64 = acc * 10 + (c as u32 - '0' as u32) as i64;
        assert(all_digits(p)) by {
            assert forall|j: int| 0 <= j < p.len() implies is_digit(#[trigger] p[j]) by {
                if j < p.len() - 1 {
                    assert(p[j] == d.subrange(0, i - start)[j]);
                }
            }
        }
        if n > limit {
            proof {
                if all_digits(d) {
                    lemma_digits_value_grows(d, i - start + 1);
                }
            }
            return None;
        }
        acc = n;
        i = i + 1;
    }
    assert(d.subrange(0, i - start) =~= d);
    Some(acc)
}

/// Parses the trimmed text as a base-10 `i32`; `None` where it is no integer
/// literal or lies out of range.
pub fn parse_int(text: &str) -> (r: Option<i32>)
    ensures
        r == int_of(text@),
{
    let t = trim(text);
    let v = chars_of(t.as_str());
    let ghost s = trimmed(text@);
    assert(v@ == s);
    if v.len() == 0 {
        return None;
    }
    let neg = v[0] == '-';
    let signed = v[0] == '-' || v[0] == '+';
    let start: usize = if signed { 1 } else { 0 };
    if signed && v.len() == 1 {
        return None;
    }
    let limit: i64 = if neg { 2147483648 } else { 2147483647 };
    proof {
        if signed {
            assert(v@.subrange(1, v.len() as int) =~= s.drop_first());
        } else {
            assert(v@.subrange(0, v.len() as int) =~= s);
        }
    }
    match digits_upto(&v, start, limit) {
        Some(n) => {
            if neg {
                Some((-n) as i32)
            } else {
                Some(n as i32)
            }
        },
        None => None,
    }
}

/// How many digits follow one another in `s` from index `i` on.
pub open spec fn digit_run(s: Seq<char>, i: int) -> int
    decreases s.len() - i,
{
    if 0 <= i < s.len() && is_digit(s[i]) {
        1 + digit_run(s, i + 1)
    } else {
        0
    }
}

/// Where the mantissa that starts at `i` ends: digits, with at most one point
/// among or after them, and at least one digit in all.
pub open spec fn mantissa_end(s: Seq<char>, i: int) -> Option<int> {
    let a = i + digit_run(s, i);
    if 0 <= a < s.len() && s[a] == '.' {
        let b = a + 1 + digit_run(s, a + 1);
        if b - i - 1 > 0 {
            Some(b)
        } else {
            None
        }
    } else if a > i {
        Some(a)
    } else {
        None
    }
}

/// `s` ends at `j`, or holds from `j` to its end an exponent: `e` or `E`, an
/// optional sign and one or more digits.
pub open spec fn exponent_rest(s: Seq<char>, j: int) -> bool {
    j == s.len() || (0 <= j < s.len() && (s[j] == 'e' || s[j] == 'E') && {
        let k = if j + 1 < s.len() && is_sign(s[j + 1]) {
            j + 2
        } else {
            j + 1
        };
        digit_run(s, k) > 0 && k + digit_run(s, k) == s.len()
    })
}

/// A finite decimal literal: an optional sign, a mantissa, an optional exponent.
pub open spec fn is_decimal_literal(s: Seq<char>) -> bool {
    let i = if s.len() > 0 && is_sign(s[0]) {
        1int
    } else {
        0int
    };
    match mantissa_end(s, i) {
        Some(j) => exponent_rest(s, j),
        None => false,
    }
}

/// A finite real number, held as the decimal literal that denotes it. No
/// infinity or NaN is one.
pub struct Decimal {
    pub literal: String,
}

impl Decimal {
    pub open spec fn wf(&self) -> bool {
        is_decimal_literal(self.literal@)
    }

    /// The literal, such as `468.0`.
    pub fn as_str(&self) -> (r: &str)
        ensures
            r@ == self.literal@,
    {
        self.literal.as_str()
    }
}

/// What `parse_float` gives for the text `t`: its trimmed literal where that is
/// a decimal literal.
pub open spec fn decimal_of(t: Seq<char>) -> Option<Seq<char>> {
    if is_decimal_literal(trimmed(t)) {
        Some(trimmed(t))
    } else {
        None
    }
}

fn scan_digits(v: &Vec<char>, i: usize) -> (j: usize)
    requires
        i <= v.len(),
    ensures
        j == i + digit_run(v@, i as int),
        i <= j <= v.len(),
    decreases v.len() - i,
{
    if i < v.len() && '0' <= v[i] && v[i] <= '9' {
        scan_digits(v, i + 1)
    } else {
        i
    }
}

fn is_decimal(v: &Vec<char>) -> (r: bool)
    ensures
        r == is_decimal_literal(v@),
{
    let i: usize = if v.len() > 0 && (v[0] == '+' || v[0] == '-') { 1 } else { 0 };
    let a = scan_digits(v, i);
    let j: usize;
    if a < v.len() && v[a] == '.' {
        let b = scan_digits(v, a + 1);
        if b - i - 1 > 0 {
            j = b;
        } else {
            return false;
        }
    } else if a > i {
        j = a;
    } else {
        return false;
    }
    if j == v.len() {
        return true;
    }
    if !(v[j] == 'e' || v[j] == 'E') {
        return false;
    }
    let k: usize = if j + 1 < v.len() && (v[j + 1] == '+' || v[j + 1] == '-') { j + 2 } else { j + 1 };
    if k > v.len() {
        return false;
    }
    let e = scan_digits(v, k);
    e > k && e == v.len()
}

/// Parses the trimmed text as a finite decimal number; `None` where it is none.
/// The non-finite spellings `inf`, `infinity` and `nan` give `None` too: an
/// area is always a finite quantity.
pub fn parse_float(text: &str) -> (r: Option<Decimal>)
    ensures
        match r {
            Some(d) => decimal_of(text@) == Some(d.literal@) && d.wf(),
            None => decimal_of(text@) is None,
        },
{
    let t = trim(text);
    let v = chars_of(t.as_str());
    if is_decimal(&v) {
        Some(Decimal { literal: t })
    } else {
        None
    }
}

/// Whether the two texts are the same.
pub fn text_eq(a: &str, b: &str) -> (r: bool)
    ensures
        r == (a@ == b@),
{
    let x = chars_of(a);
    let y = chars_of(b);
    if x.len() != y.len() {
        return false;
    }
    let mut i: usize = 0;
    while i < x.len()
        invariant
            x@ == a@,
            y@ == b@,
            x.len() == y.len(),
            0 <= i <= x.len(),
            forall|j: int| 0 <= j < i ==> x@[j] == y@[j],
        decreases x.len() - i,
    {
        if x[i] != y[i] {
            assert(a@[i as int] != b@[i as int]);
            return false;
        }
        i = i + 1;
    }
    assert(x@ =~= y@);
    true
}

} // verus!
