use vstd::prelude::*;

verus! {

/// The ASCII digit for `d` (`0 <= d < 10`).
pub open spec fn digit_char(d: int) -> char {
    if d == 0 {
        '0'
    } else if d == 1 {
        '1'
    } else if d == 2 {
        '2'
    } else if d == 3 {
        '3'
    } else if d == 4 {
        '4'
    } else if d == 5 {
        '5'
    } else if d == 6 {
        '6'
    } else if d == 7 {
        '7'
    } else if d == 8 {
        '8'
    } else {
        '9'
    }
}

pub open spec fn is_digit(c: char) -> bool {
    '0' <= c <= '9'
}

pub open spec fn digit_value(c: char) -> int {
    (c as int) - ('0' as int)
}

/// The decimal representation of `n`, without sign or leading zeros.
pub open spec fn decimal(n: nat) -> Seq<char>
    decreases n,
{
    if n < 10 {
        seq![digit_char(n as int)]
    } else {
        decimal(n / 10).push(digit_char((n % 10) as int))
    }
}

/// The value of a string of decimal digits.
pub open spec fn digits_value(s: Seq<char>) -> int
    decreases s.len(),
{
    if s.len() == 0 {
        0
    } else {
        digits_value(s.drop_last()) * 10 + digit_value(s.last())
    }
}

pub open spec fn all_digits(s: Seq<char>) -> bool {
    forall|i: int| 0 <= i < s.len() ==> is_digit(#[trigger] s[i])
}

/// What `str::parse::<u64>` accepts: an optional `+`, then one or more
/// decimal digits whose value fits in a `u64`.
pub open spec fn parse_u64_spec(s: Seq<char>) -> Option<u64> {
    let body = if s.len() > 0 && s[0] == '+' {
        s.drop_first()
    } else {
        s
    };
    parse_digits_spec(body)
}

/// One or more decimal digits whose value fits in a `u64`.
pub open spec fn parse_digits_spec(body: Seq<char>) -> Option<u64> {
    if body.len() > 0 && all_digits(body) && digits_value(body) <= u64::MAX {
        Some(digits_value(body) as u64)
    } else {
        None
    }
}

proof fn lemma_digit_char(d: int)
    requires
        0 <= d < 10,
    ensures
        is_digit(digit_char(d)),
        digit_value(digit_char(d)) == d,
{
}

pub proof fn lemma_decimal_digits(n: nat)
    ensures
        decimal(n).len() > 0,
        all_digits(decimal(n)),
        digits_value(decimal(n)) == n,
        decimal(n)[0] != '+',
    decreases n,
{
    if n < 10 {
        lemma_digit_char(n as int);
        assert(seq![digit_char(n as int)].drop_last() =~= Seq::<char>::empty());
        assert(digits_value(Seq::<char>::empty()) == 0);
    } else {
        lemma_decimal_digits(n / 10);
        lemma_digit_char((n % 10) as int);
        let s = decimal(n);
        assert(s.drop_last() =~= decimal(n / 10));
        assert(s[0] == decimal(n / 10)[0]);
        assert(digits_value(s) == digits_value(decimal(n / 10)) * 10 + (n % 10));
        assert forall|i: int| 0 <= i < s.len() implies is_digit(#[trigger] s[i]) by {
            if i < s.len() - 1 {
                assert(s[i] == decimal(n / 10)[i]);
            }
        }
    }
}

/// `str::parse::<u64>` reads back the decimal representation of any `u64`.
pub proof fn lemma_parse_decimal(n: u64)
    ensures
        parse_u64_spec(decimal(n as nat)) == Some(n),
{
    lemma_decimal_digits(n as nat);
}

/// The string literal holding the digit `d`.
fn digit_str(d: u64) -> (s: &'static str)
    requires
        d < 10,
    ensures
        s@ == seq![digit_char(d as int)],
{
    proof {
        reveal_strlit("0");
        reveal_strlit("1");
        reveal_strlit("2");
        reveal_strlit("3");
        reveal_strlit("4");
        reveal_strlit("5");
        reveal_strlit("6");
        reveal_strlit("7");
        reveal_strlit("8");
        reveal_strlit("9");
    }
    if d == 0 {
        "0"
    } else if d == 1 {
        "1"
    } else if d == 2 {
        "2"
    } else if d == 3 {
        "3"
    } else if d == 4 {
        "4"
    } else if d == 5 {
        "5"
    } else if d == 6 {
        "6"
    } else if d == 7 {
        "7"
    } else if d == 8 {
        "8"
    } else {
        "9"
    }
}

/// Appends the decimal representation of `n` to `out`.
pub fn push_decimal(out: &mut String, n: u64)
    ensures
        final(out)@ == old(out)@ + decimal(n as nat),
    decreases n,
{
    if n >= 10 {
        push_decimal(out, n / 10);
        out.append(digit_str(n % 10));
        proof {
            assert(decimal(n as nat) == decimal((n / 10) as nat).push(digit_char((n % 10) as int)));
            assert(old(out)@ + decimal((n / 10) as nat) + seq![digit_char((n % 10) as int)]
                =~= old(out)@ + decimal(n as nat));
        }
    } else {
        out.append(digit_str(n));
    }
}

/// Appends the decimal representation of the wide `n` to `out`.
pub fn push_decimal_wide(out: &mut String, n: u128)
    ensures
        final(out)@ == old(out)@ + decimal(n as nat),
    decreases n,
{
    if n >= 10 {
        push_decimal_wide(out, n / 10);
        out.append(digit_str((n % 10) as u64));
        proof {
            assert(decimal(n as nat) == decimal((n / 10) as nat).push(digit_char((n % 10) as int)));
            assert(old(out)@ + decimal((n / 10) as nat) + seq![digit_char((n % 10) as int)]
                =~= old(out)@ + decimal(n as nat));
        }
    } else {
        out.append(digit_str(n as u64));
    }
}

/// The decimal representation of `n` as a new string.
pub fn decimal_string(n: u64) -> (s: String)
    ensures
        s@ == decimal(n as nat),
{
    let mut s = String::new();
    push_decimal(&mut s, n);
    proof {
        assert(Seq::<char>::empty() + decimal(n as nat) =~= decimal(n as nat));
    }
    s
}

/// A new string holding `lit`.
pub fn string_of(lit: &str) -> (s: String)
    ensures
        s@ == lit@,
{
    String::from_str(lit)
}

/// Parses the characters `text[from..]` the way `str::parse::<u64>` does.
pub fn parse_u64_from(text: &str, from: usize) -> (out: Option<u64>)
    requires
        from <= text@.len(),
    ensures
        out == parse_u64_spec(text@.subrange(from as int, text@.len() as int)),
{
    let n = text.unicode_len();
    let ghost s = text@.subrange(from as int, n as int);
    let mut i = from;
    if i < n && text.get_char(i) == '+' {
        i += 1;
    }
    let ghost body = text@.subrange(i as int, n as int);
    proof {
        if s.len() > 0 && s[0] == '+' {
            assert(body =~= s.drop_first());
        } else {
            assert(body =~= s);
        }
    }
    if i >= n {
        proof {
            assert(body.len() == 0);
        }
        return None;
    }
    let start = i;
    let mut value: u64 = 0;
    while i < n
        invariant
            start <= i <= n,
            n == text@.len(),
            start < n,
            body == text@.subrange(start as int, n as int),
            parse_u64_spec(text@.subrange(from as int, n as int)) == parse_digits_spec(body),
            all_digits(text@.subrange(start as int, i as int)),
            value as int == digits_value(text@.subrange(start as int, i as int)),
        decreases n - i,
    {
        let c = text.get_char(i);
        proof {
            assert(text@.subrange(start as int, i + 1).drop_last() =~= text@.subrange(
                start as int,
                i as int,
            ));
        }
        if !('0' <= c && c <= '9') {
            proof {
                assert(body[i - start] == c);
                assert(!all_digits(body));
            }
            return None;
        }
        let d = (c as u32 - '0' as u32) as u64;
        if value > (u64::MAX - d) / 10 {
            proof {
                let pre = text@.subrange(start as int, i + 1);
                assert(digits_value(pre) > u64::MAX) by (nonlinear_arith)
                    requires
                        digits_value(pre) == value * 10 + d,
                        value > (u64::MAX - d) / 10,
                        d < 10,
                ;
                lemma_digits_value_prefix_bound(body, (i + 1 - start) as int);
                assert(body.subrange(0, (i + 1 - start) as int) =~= pre);
                if all_digits(body) {
                    assert(digits_value(body) > u64::MAX);
                }
            }
            return None;
        }
        proof {
            assert(value * 10 + d <= u64::MAX) by (nonlinear_arith)
                requires
                    value <= (u64::MAX - d) / 10,
                    d < 10,
            ;
        }
        value = value * 10 + d;
        i += 1;
    }
    proof {
        assert(text@.subrange(start as int, n as int) =~= body);
    }
    Some(value)
}

/// Digits only add value: a prefix of a digit string is worth no more than the whole.
proof fn lemma_digits_value_prefix_bound(s: Seq<char>, k: int)
    requires
        0 <= k <= s.len(),
    ensures
        all_digits(s) ==> digits_value(s.subrange(0, k)) <= digits_value(s),
    decreases s.len() - k,
{
    if k < s.len() && all_digits(s) {
        lemma_digits_value_prefix_bound(s, k + 1);
        let p = s.subrange(0, k + 1);
        assert(p.drop_last() =~= s.subrange(0, k));
        assert(is_digit(s[k]));
        assert(digits_value(s.subrange(0, k)) >= 0) by {
            lemma_digits_value_nonneg(s.subrange(0, k));
        }
        assert(digits_value(s.subrange(0, k)) <= digits_value(p)) by (nonlinear_arith)
            requires
                digits_value(p) == digits_value(s.subrange(0, k)) * 10 + digit_value(p.last()),
                digit_value(p.last()) >= 0,
                digits_value(s.subrange(0, k)) >= 0,
        ;
    }
    if k == s.len() {
        assert(s.subrange(0, k) =~= s);
    }
}

proof fn lemma_digits_value_nonneg(s: Seq<char>)
    requires
        all_digits(s),
    ensures
        digits_value(s) >= 0,
    decreases s.len(),
{
    if s.len() > 0 {
        assert(is_digit(s[s.len() - 1]));
        let t = s.drop_last();
        assert forall|i: int| 0 <= i < t.len() implies is_digit(#[trigger] t[i]) by {
            assert(t[i] == s[i]);
        }
        lemma_digits_value_nonneg(t);
    }
}

} // verus!

verus! {

/// Whether two strings hold the same characters.
pub fn str_equals(a: &str, b: &str) -> (r: bool)
    ensures
        r == (a@ == b@),
{
    let n = a.unicode_len();
    if n != b.unicode_len() {
        return false;
    }
    let mut i: usize = 0;
    while i < n
        invariant
            i <= n,
            n == a@.len(),
            n == b@.len(),
            forall|k: int| 0 <= k < i ==> a@[k] == b@[k],
        decreases n - i,
    {
        if a.get_char(i) != b.get_char(i) {
            return false;
        }
        i += 1;
    }
    proof {
        assert(a@ =~= b@);
    }
    true
}

} // verus!

verus! {

/// What `str::parse` accepts for an unsigned type whose largest value is
/// `max`: an optional `+`, then one or more digits whose value is at most `max`.
pub open spec fn parse_unsigned_spec(s: Seq<char>, max: int) -> Option<int> {
    let body = if s.len() > 0 && s[0] == '+' {
        s.drop_first()
    } else {
        s
    };
    if body.len() > 0 && all_digits(body) && digits_value(body) <= max {
        Some(digits_value(body))
    } else {
        None
    }
}

/// What `str::parse::<i32>` accepts: an optional `+` or `-`, then one or
/// more digits whose signed value fits in an `i32`.
pub open spec fn parse_i32_spec(s: Seq<char>) -> Option<i32> {
    if s.len() > 0 && s[0] == '-' {
        let body = s.drop_first();
        if body.len() > 0 && all_digits(body) && digits_value(body) <= 2147483648 {
            Some((-digits_value(body)) as i32)
        } else {
            None
        }
    } else {
        match parse_unsigned_spec(s, i32::MAX as int) {
            Some(v) => Some(v as i32),
            None => None,
        }
    }
}

/// The characters of `text`, one by one.
pub fn chars_of(text: &str) -> (cs: Vec<char>)
    ensures
        cs@ == text@,
{
    let n = text.unicode_len();
    let mut cs: Vec<char> = Vec::new();
    let mut i: usize = 0;
    while i < n
        invariant
            i <= n,
            n == text@.len(),
            cs@ == text@.take(i as int),
        decreases n - i,
    {
        cs.push(text.get_char(i));
        i += 1;
        proof {
            assert(cs@ =~= text@.take(i as int));
        }
    }
    proof {
        assert(cs@ =~= text@);
    }
    cs
}

/// Reads the unsigned digits `cs[lo..hi]` (no sign), failing above `max`.
fn digits_in(cs: &Vec<char>, lo: usize, hi: usize, max: u64) -> (out: Option<u64>)
    requires
        lo <= hi <= cs@.len(),
    ensures
        out is Some <==> ({
            let s = cs@.subrange(lo as int, hi as int);
            s.len() > 0 && all_digits(s) && digits_value(s) <= max
        }),
        out matches Some(v) ==> v as int == digits_value(cs@.subrange(lo as int, hi as int)),
{
    let ghost s = cs@.subrange(lo as int, hi as int);
    if lo >= hi {
        return None;
    }
    let mut i = lo;
    let mut value: u64 = 0;
    while i < hi
        invariant
            lo <= i <= hi <= cs@.len(),
            s == cs@.subrange(lo as int, hi as int),
            all_digits(cs@.subrange(lo as int, i as int)),
            value as int == digits_value(cs@.subrange(lo as int, i as int)),
            value <= max,
        decreases hi - i,
    {
        let c = cs[i];
        proof {
            assert(cs@.subrange(lo as int, i + 1).drop_last() =~= cs@.subrange(lo as int, i as int));
        }
        if !('0' <= c && c <= '9') {
            proof {
                assert(s[i - lo] == c);
            }
            return None;
        }
        let d = (c as u32 - '0' as u32) as u64;
        if d > max || value > (max - d) / 10 {
            proof {
                let pre = cs@.subrange(lo as int, i + 1);
                if d <= max {
                    assert(digits_value(pre) > max) by (nonlinear_arith)
                        requires
                            digits_value(pre) == value * 10 + d,
                            value > (max - d) / 10,
                            d <= max,
                    ;
                } else {
                    assert(digits_value(pre) > max) by (nonlinear_arith)
                        requires
                            digits_value(pre) == value * 10 + d,
                            d > max,
                            value >= 0,
                    ;
                }
                lemma_digits_value_prefix_bound(s, (i + 1 - lo) as int);
                assert(s.subrange(0, (i + 1 - lo) as int) =~= pre);
            }
            return None;
        }
        proof {
            assert(value * 10 + d <= max) by (nonlinear_arith)
                requires
                    value <= (max - d) / 10,
                    d <= max,
            ;
        }
        value = value * 10 + d;
        i += 1;
    }
    proof {
        assert(cs@.subrange(lo as int, hi as int) =~= s);
    }
    Some(value)
}

/// Parses `cs[lo..hi]` the way `str::parse` does for an unsigned type whose
/// largest value is `max`.
pub fn parse_unsigned_in(cs: &Vec<char>, lo: usize, hi: usize, max: u64) -> (out: Option<u64>)
    requires
        lo <= hi <= cs@.len(),
    ensures
        out matches Some(v) ==> parse_unsigned_spec(cs@.subrange(lo as int, hi as int), max as int)
            == Some(v as int),
        out is None ==> parse_unsigned_spec(cs@.subrange(lo as int, hi as int), max as int) is None,
{
    let ghost s = cs@.subrange(lo as int, hi as int);
    if lo < hi && cs[lo] == '+' {
        proof {
            assert(cs@.subrange(lo + 1, hi as int) =~= s.drop_first());
        }
        digits_in(cs, lo + 1, hi, max)
    } else {
        proof {
            if lo < hi {
                assert(s[0] == cs@[lo as int]);
            }
        }
        digits_in(cs, lo, hi, max)
    }
}

/// Parses `cs[lo..hi]` the way `str::parse::<i32>` does.
pub fn parse_i32_in(cs: &Vec<char>, lo: usize, hi: usize) -> (out: Option<i32>)
    requires
        lo <= hi <= cs@.len(),
    ensures
        out == parse_i32_spec(cs@.subrange(lo as int, hi as int)),
{
    let ghost s = cs@.subrange(lo as int, hi as int);
    if lo < hi && cs[lo] == '-' {
        proof {
            assert(cs@.subrange(lo + 1, hi as int) =~= s.drop_first());
        }
        match digits_in(cs, lo + 1, hi, 2147483648) {
            Some(v) => {
                assert(v <= 2147483648);
                let r: i64 = -(v as i64);
                Some(r as i32)
            },
            None => None,
        }
    } else {
        proof {
            if lo < hi {
                assert(s[0] == cs@[lo as int]);
            }
        }
        match parse_unsigned_in(cs, lo, hi, 2147483647) {
            Some(v) => Some(v as i32),
            None => None,
        }
    }
}

} // verus!

verus! {

/// `String::push`: appends one character.
#[verifier::external_body]
pub(crate) fn push_char(s: &mut String, c: char)
    ensures
        final(s)@ == old(s)@.push(c),
{
    s.push(c)
}

/// Appends the characters `cs[lo..hi]` to `out`.
pub fn push_chars(out: &mut String, cs: &Vec<char>, lo: usize, hi: usize)
    requires
        lo <= hi <= cs@.len(),
    ensures
        final(out)@ == old(out)@ + cs@.subrange(lo as int, hi as int),
{
    let ghost start = out@;
    let mut i = lo;
    while i < hi
        invariant
            lo <= i <= hi <= cs@.len(),
            out@ == start + cs@.subrange(lo as int, i as int),
        decreases hi - i,
    {
        push_char(out, cs[i]);
        i += 1;
        proof {
            assert(out@ =~= start + cs@.subrange(lo as int, i as int));
        }
    }
}

/// Whether `c` is the `i`-th character of `s` and the first `c` in it.
pub open spec fn is_first_of(s: Seq<char>, c: char, i: int) -> bool {
    0 <= i < s.len() && s[i] == c && forall|j: int| 0 <= j < i ==> s[j] != c
}

/// `str::split_once(c)`: the text before and after the first `c`.
pub open spec fn split_once_spec(s: Seq<char>, c: char) -> Option<(Seq<char>, Seq<char>)> {
    if exists|i: int| is_first_of(s, c, i) {
        let i = choose|i: int| is_first_of(s, c, i);
        Some((s.take(i), s.skip(i + 1)))
    } else {
        None
    }
}

/// The `n`-th piece (from 0) of `s` split at every `sep`, as `str::split` yields them.
pub open spec fn nth_part(s: Seq<char>, sep: char, n: nat) -> Option<Seq<char>>
    decreases n,
{
    match split_once_spec(s, sep) {
        None => if n == 0 {
            Some(s)
        } else {
            None
        },
        Some((a, b)) => if n == 0 {
            Some(a)
        } else {
            nth_part(b, sep, (n - 1) as nat)
        },
    }
}

pub proof fn lemma_first_unique(s: Seq<char>, c: char, i: int)
    requires
        is_first_of(s, c, i),
    ensures
        (choose|k: int| is_first_of(s, c, k)) == i,
{
    let k = choose|k: int| is_first_of(s, c, k);
    assert(is_first_of(s, c, k));
    if k < i {
        assert(s[k] != c);
    }
    if i < k {
        assert(s[i] != c);
    }
}

/// The index of the first `c` in `cs[lo..hi]`.
pub fn find_char(cs: &Vec<char>, lo: usize, hi: usize, c: char) -> (r: Option<usize>)
    requires
        lo <= hi <= cs@.len(),
    ensures
        ({
            let s = cs@.subrange(lo as int, hi as int);
            &&& r matches Some(i) ==> lo <= i < hi && is_first_of(s, c, i - lo)
            &&& r is None ==> !exists|i: int| is_first_of(s, c, i)
            &&& split_once_spec(s, c) == match r {
                Some(i) => Some((cs@.subrange(lo as int, i as int), cs@.subrange(i + 1, hi as int))),
                None => None::<(Seq<char>, Seq<char>)>,
            }
        }),
{
    let ghost s = cs@.subrange(lo as int, hi as int);
    let mut i = lo;
    while i < hi
        invariant
            lo <= i <= hi <= cs@.len(),
            s == cs@.subrange(lo as int, hi as int),
            forall|j: int| lo <= j < i ==> cs@[j] != c,
        decreases hi - i,
    {
        if cs[i] == c {
            proof {
                assert forall|j: int| 0 <= j < i - lo implies s[j] != c by {
                    assert(s[j] == cs@[lo + j]);
                }
                assert(is_first_of(s, c, i - lo));
                lemma_first_unique(s, c, i - lo);
                assert(s.take(i - lo) =~= cs@.subrange(lo as int, i as int));
                assert(s.skip(i - lo + 1) =~= cs@.subrange(i + 1, hi as int));
            }
            return Some(i);
        }
        i += 1;
    }
    proof {
        assert forall|k: int| !is_first_of(s, c, k) by {
            if 0 <= k < s.len() {
                assert(s[k] == cs@[lo + k]);
            }
        }
    }
    None
}

/// The bounds of the `n`-th piece of `cs[lo..hi]` split at every `sep`.
pub fn part_range(cs: &Vec<char>, lo: usize, hi: usize, sep: char, n: usize) -> (r: Option<
    (usize, usize),
>)
    requires
        lo <= hi <= cs@.len(),
    ensures
        r matches Some((a, b)) ==> lo <= a <= b <= hi && nth_part(
            cs@.subrange(lo as int, hi as int),
            sep,
            n as nat,
        ) == Some(cs@.subrange(a as int, b as int)),
        r is None ==> nth_part(cs@.subrange(lo as int, hi as int), sep, n as nat) is None,
    decreases n,
{
    match find_char(cs, lo, hi, sep) {
        None => if n == 0 {
            Some((lo, hi))
        } else {
            None
        },
        Some(i) => if n == 0 {
            Some((lo, i))
        } else {
            part_range(cs, i + 1, hi, sep, n - 1)
        },
    }
}

} // verus!

verus! {

/// `s1[i..]` comes before `s2[i..]` in the order of `str`'s `<`: compared
/// character by character, a proper prefix first.
pub open spec fn lt_from(a: Seq<char>, b: Seq<char>, i: int) -> bool
    decreases a.len() - i,
{
    if i < 0 || i >= a.len() {
        0 <= i < b.len()
    } else if i >= b.len() {
        false
    } else if a[i] != b[i] {
        a[i] < b[i]
    } else {
        lt_from(a, b, i + 1)
    }
}

/// The order of `str`'s `<` (and of `String` keys in ordered maps).
pub open spec fn str_lt(a: Seq<char>, b: Seq<char>) -> bool {
    lt_from(a, b, 0)
}

pub proof fn lemma_lt_from_irreflexive(a: Seq<char>, i: int)
    requires
        0 <= i <= a.len(),
    ensures
        !lt_from(a, a, i),
    decreases a.len() - i,
{
    if i < a.len() {
        lemma_lt_from_irreflexive(a, i + 1);
    }
}

pub proof fn lemma_lt_from_transitive(a: Seq<char>, b: Seq<char>, c: Seq<char>, i: int)
    requires
        0 <= i,
        i <= a.len(),
        i <= b.len(),
        i <= c.len(),
        lt_from(a, b, i),
        lt_from(b, c, i),
    ensures
        lt_from(a, c, i),
    decreases a.len() - i,
{
    if i < a.len() && i < b.len() && i < c.len() && a[i] == b[i] && b[i] == c[i] {
        lemma_lt_from_transitive(a, b, c, i + 1);
    }
}

/// The strict order of two strings: `-1`, `0` or `1` as `a` sorts before,
/// equal to, or after `b`.
pub fn compare_str(a: &str, b: &str) -> (r: i8)
    ensures
        r == -1 <==> str_lt(a@, b@),
        r == 0 <==> a@ == b@,
        r == 1 <==> str_lt(b@, a@),
        r == -1 || r == 0 || r == 1,
{
    let na = a.unicode_len();
    let nb = b.unicode_len();
    let mut i: usize = 0;
    while i < na && i < nb
        invariant
            i <= na,
            i <= nb,
            na == a@.len(),
            nb == b@.len(),
            forall|k: int| 0 <= k < i ==> a@[k] == b@[k],
            str_lt(a@, b@) == lt_from(a@, b@, i as int),
            str_lt(b@, a@) == lt_from(b@, a@, i as int),
        decreases na - i,
    {
        let ca = a.get_char(i);
        let cb = b.get_char(i);
        if ca != cb {
            proof {
                assert(a@ != b@) by {
                    assert(a@[i as int] != b@[i as int]);
                }
            }
            if ca < cb {
                return -1;
            } else {
                return 1;
            }
        }
        i += 1;
    }
    if na == nb {
        proof {
            assert(a@ =~= b@);
            lemma_lt_from_irreflexive(a@, i as int);
        }
        0
    } else if na < nb {
        proof {
            assert(a@.len() != b@.len());
        }
        -1
    } else {
        proof {
            assert(a@.len() != b@.len());
        }
        1
    }
}

} // verus!
