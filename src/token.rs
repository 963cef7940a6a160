//! Splitting a UCI line into tokens, and decimal integers.
use vstd::prelude::*;

verus! {

/// Tokens are separated by runs of spaces and tabs.
pub open spec fn is_sep(c: char) -> bool {
    c == ' ' || c == '\t'
}

/// First index at or after `i` that does not hold a separator.
pub open spec fn skip_seps(s: Seq<char>, i: int) -> int
    decreases s.len() - i,
{
    if 0 <= i < s.len() && is_sep(s[i]) {
        skip_seps(s, i + 1)
    } else {
        i
    }
}

/// First index at or after `i` that holds a separator, or the length.
pub open spec fn token_end(s: Seq<char>, i: int) -> int
    decreases s.len() - i,
{
    if 0 <= i < s.len() && !is_sep(s[i]) {
        token_end(s, i + 1)
    } else {
        i
    }
}

/// The next token of `s` and what follows it. When only separators are
/// left there is no token and the tail is empty.
pub open spec fn read_spec(s: Seq<char>) -> (Option<Seq<char>>, Seq<char>) {
    let i = skip_seps(s, 0);
    if i >= s.len() {
        (None, Seq::empty())
    } else {
        let j = token_end(s, i);
        (Some(s.subrange(i, j)), s.subrange(j, s.len() as int))
    }
}

/// `s` without its trailing separators.
pub open spec fn trim_end(s: Seq<char>) -> Seq<char>
    decreases s.len(),
{
    if s.len() > 0 && is_sep(s.last()) {
        trim_end(s.drop_last())
    } else {
        s
    }
}

/// `s` without separators at either end.
pub open spec fn trim(s: Seq<char>) -> Seq<char> {
    trim_end(s.subrange(skip_seps(s, 0), s.len() as int))
}

pub open spec fn opt_view(o: Option<&str>) -> Option<Seq<char>> {
    match o {
        Some(t) => Some(t@),
        None => None,
    }
}

pub proof fn lemma_skip_seps(s: Seq<char>, i: int)
    requires
        0 <= i <= s.len(),
    ensures
        i <= skip_seps(s, i) <= s.len(),
        forall|k: int| i <= k < skip_seps(s, i) ==> is_sep(#[trigger] s[k]),
        skip_seps(s, i) < s.len() ==> !is_sep(s[skip_seps(s, i)]),
    decreases s.len() - i,
{
    if i < s.len() && is_sep(s[i]) {
        lemma_skip_seps(s, i + 1);
    }
}

pub proof fn lemma_token_end(s: Seq<char>, i: int)
    requires
        0 <= i <= s.len(),
    ensures
        i <= token_end(s, i) <= s.len(),
        forall|k: int| i <= k < token_end(s, i) ==> !is_sep(#[trigger] s[k]),
        token_end(s, i) < s.len() ==> is_sep(s[token_end(s, i)]),
    decreases s.len() - i,
{
    if i < s.len() && !is_sep(s[i]) {
        lemma_token_end(s, i + 1);
    }
}

/// A token is never empty, holds no separator, and reading moves forward.
pub proof fn lemma_read(s: Seq<char>)
    ensures
        read_spec(s).1.len() <= s.len(),
        read_spec(s).0 is Some ==> read_spec(s).1.len() < s.len(),
        read_spec(s).0 is Some ==> read_spec(s).0->0.len() > 0,
        read_spec(s).0 is Some ==> forall|k: int|
            0 <= k < read_spec(s).0->0.len() ==> !is_sep(#[trigger] read_spec(s).0->0[k]),
        read_spec(s).0 is None ==> forall|k: int| 0 <= k < s.len() ==> is_sep(#[trigger] s[k]),
{
    lemma_skip_seps(s, 0);
    let i = skip_seps(s, 0);
    if i < s.len() {
        lemma_token_end(s, i);
    }
}

pub fn is_separator(c: char) -> (r: bool)
    ensures
        r == is_sep(c),
{
    c == ' ' || c == '\t'
}

/// Index of the first non-separator at or after `i`.
fn skip_separators(s: &str, n: usize, i: usize) -> (r: usize)
    requires
        n == s@.len(),
        i <= n,
    ensures
        r == skip_seps(s@, i as int),
{
    let mut k = i;
    while k < n && is_separator(s.get_char(k))
        invariant
            i <= k <= n,
            n == s@.len(),
            skip_seps(s@, i as int) == skip_seps(s@, k as int),
        decreases n - k,
    {
        k = k + 1;
    }
    k
}

/// Index of the first separator at or after `i`, or the length.
fn find_separator(s: &str, n: usize, i: usize) -> (r: usize)
    requires
        n == s@.len(),
        i <= n,
    ensures
        r == token_end(s@, i as int),
{
    let mut k = i;
    while k < n && !is_separator(s.get_char(k))
        invariant
            i <= k <= n,
            n == s@.len(),
            token_end(s@, i as int) == token_end(s@, k as int),
        decreases n - k,
    {
        k = k + 1;
    }
    k
}

/// Splits off the next token: leading separators are skipped, the token runs
/// up to the next separator, and the tail keeps that separator.
pub fn read<'a>(s: &'a str) -> (r: (Option<&'a str>, &'a str))
    ensures
        (opt_view(r.0), r.1@) == read_spec(s@),
{
    let n = s.unicode_len();
    let i = skip_separators(s, n, 0);
    proof {
        lemma_skip_seps(s@, 0);
    }
    if i >= n {
        (None, s.substring_char(n, n))
    } else {
        let j = find_separator(s, n, i);
        proof {
            lemma_token_end(s@, i as int);
        }
        (Some(s.substring_char(i, j)), s.substring_char(j, n))
    }
}

/// End of `s@[from..to]` once trailing separators are dropped.
fn trimmed_end(s: &str, from: usize, to: usize) -> (r: usize)
    requires
        from <= to <= s@.len(),
    ensures
        from <= r <= to,
        s@.subrange(from as int, r as int) == trim_end(s@.subrange(from as int, to as int)),
{
    let mut k = to;
    while k > from && is_separator(s.get_char(k - 1))
        invariant
            from <= k <= to <= s@.len(),
            trim_end(s@.subrange(from as int, k as int)) == trim_end(
                s@.subrange(from as int, to as int),
            ),
        decreases k,
    {
        assert(s@.subrange(from as int, k as int).drop_last() =~= s@.subrange(
            from as int,
            k - 1,
        ));
        k = k - 1;
    }
    proof {
        if k > from {
            assert(s@.subrange(from as int, k as int).last() == s@[k - 1]);
        }
    }
    k
}

/// Everything up to the first separator whose following token satisfies
/// `pred`, with separators trimmed at both ends, and the tail from that
/// separator on. Where no such token comes, the rest of the line is taken and
/// the tail is empty.
pub fn read_until<'a, P: Fn(&'a str) -> bool>(s: &'a str, pred: P) -> (r: (
    Option<&'a str>,
    &'a str,
))
    requires
        forall|t: &'a str| pred.requires((t,)),
    ensures
        r.0 is None <==> read_spec(s@).0 is None,
        r.0 is None ==> r.1@.len() == 0,
        r.1@.len() == 0 ==> r.0 is Some ==> r.0->0@ == trim(s@),
        r.1@.len() > 0 ==> {
            &&& r.0 is Some
            &&& skip_seps(s@, 0) < s@.len() - r.1@.len()
            &&& r.1@ == s@.subrange(s@.len() - r.1@.len(), s@.len() as int)
            &&& is_sep(r.1@[0])
            &&& r.0->0@ == trim(s@.subrange(0, s@.len() - r.1@.len()))
            &&& read_spec(r.1@).0 is Some
            &&& exists|t: &'a str|
                t@ == read_spec(r.1@).0->0 && #[trigger] pred.ensures((t,), true)
        },
        (forall|t: &'a str, b: bool| #[trigger] pred.ensures((t,), b) ==> !b) ==> r.1@.len()
            == 0,
        forall|k: int|
            skip_seps(s@, 0) <= k < s@.len() - r.1@.len() && is_sep(s@[k]) && (#[trigger] read_spec(
                s@.subrange(k, s@.len() as int),
            )).0 is Some ==> exists|t: &'a str|
                t@ == read_spec(s@.subrange(k, s@.len() as int)).0->0 && pred.ensures((t,), false),
{
    let n = s.unicode_len();
    let i = skip_separators(s, n, 0);
    proof {
        lemma_skip_seps(s@, 0);
    }
    if i >= n {
        return (None, s.substring_char(n, n));
    }
    let mut end = i;
    while end < n
        invariant
            i <= end <= n,
            n == s@.len(),
            i == skip_seps(s@, 0),
            i < n,
            !is_sep(s@[i as int]),
            forall|t: &'a str| pred.requires((t,)),
            forall|k: int|
                i <= k < end && is_sep(s@[k]) && (#[trigger] read_spec(
                    s@.subrange(k, s@.len() as int),
                )).0 is Some ==> exists|t: &'a str|
                    t@ == read_spec(s@.subrange(k, s@.len() as int)).0->0 && pred.ensures(
                        (t,),
                        false,
                    ),
        decreases n - end,
    {
        if is_separator(s.get_char(end)) {
            let tail = s.substring_char(end, n);
            let (next, _) = read(tail);
            if let Some(token) = next {
                if pred(token) {
                    let e = trimmed_end(s, i, end);
                    proof {
                        assert(!is_sep(s@[i as int]));
                        assert(end > i);
                        assert(s@.subrange(0, end as int).subrange(i as int, end as int)
                            =~= s@.subrange(i as int, end as int));
                        lemma_skip_prefix(s@, end as int);
                        assert(tail@[0] == s@[end as int]);
                        assert(s@.len() - tail@.len() == end);
                    }
                    let head = s.substring_char(i, e);
                    return (Some(head), tail);
                }
                assert(tail@ == s@.subrange(end as int, s@.len() as int));
            }
            proof {
                assert(tail@ == s@.subrange(end as int, s@.len() as int));
            }
        }
        end = end + 1;
    }
    let e = trimmed_end(s, i, n);
    proof {
        assert(s@.subrange(i as int, n as int) =~= s@.subrange(i as int, s@.len() as int));
    }
    (Some(s.substring_char(i, e)), s.substring_char(n, n))
}

/// Skipping separators in a prefix that reaches past them gives the same index.
proof fn lemma_skip_prefix(s: Seq<char>, end: int)
    requires
        0 <= skip_seps(s, 0) < end <= s.len(),
    ensures
        skip_seps(s.subrange(0, end), 0) == skip_seps(s, 0),
{
    lemma_skip_seps(s, 0);
    lemma_skip_seps(s.subrange(0, end), 0);
    let a = skip_seps(s, 0);
    let b = skip_seps(s.subrange(0, end), 0);
    if b < a {
        assert(is_sep(s[b]));
    } else if a < b {
        assert(is_sep(s.subrange(0, end)[a]));
    }
}

/// Views of `&str` equal exactly when the strings are equal.
pub fn str_eq(a: &str, b: &str) -> (r: bool)
    ensures
        r == (a@ == b@),
{
    let n = a.unicode_len();
    let m = b.unicode_len();
    if n != m {
        return false;
    }
    let mut k: usize = 0;
    while k < n
        invariant
            k <= n,
            n == a@.len(),
            m == b@.len(),
            n == m,
            forall|j: int| 0 <= j < k ==> a@[j] == b@[j],
        decreases n - k,
    {
        if a.get_char(k) != b.get_char(k) {
            return false;
        }
        k = k + 1;
    }
    assert(a@ =~= b@);
    true
}

pub open spec fn is_digit(c: char) -> bool {
    '0' <= c <= '9'
}

pub open spec fn digit_value(c: char) -> int {
    c as int - '0' as int
}

pub open spec fn all_digits(t: Seq<char>) -> bool {
    t.len() > 0 && forall|k: int| 0 <= k < t.len() ==> is_digit(#[trigger] t[k])
}

/// The number written by a string of decimal digits.
pub open spec fn digits_value(t: Seq<char>) -> nat
    decreases t.len(),
{
    if t.len() == 0 {
        0
    } else {
        (digits_value(t.drop_last()) * 10 + digit_value(t.last())) as nat
    }
}

/// A non-negative integer as `str::parse` reads it: an optional `+`, then
/// at least one digit.
pub open spec fn unsigned_value(t: Seq<char>) -> Option<int> {
    if t.len() > 0 && t[0] == '+' {
        if all_digits(t.drop_first()) {
            Some(digits_value(t.drop_first()) as int)
        } else {
            None
        }
    } else if all_digits(t) {
        Some(digits_value(t) as int)
    } else {
        None
    }
}

/// A signed integer as `str::parse` reads it: an optional `+` or `-`, then
/// at least one digit.
pub open spec fn signed_value(t: Seq<char>) -> Option<int> {
    if t.len() > 0 && t[0] == '-' {
        if all_digits(t.drop_first()) {
            Some(-digits_value(t.drop_first()))
        } else {
            None
        }
    } else {
        unsigned_value(t)
    }
}

pub open spec fn u32_of(t: Seq<char>) -> Option<u32> {
    match unsigned_value(t) {
        Some(v) => if v <= u32::MAX {
            Some(v as u32)
        } else {
            None
        },
        None => None,
    }
}

pub open spec fn u64_of(t: Seq<char>) -> Option<u64> {
    match unsigned_value(t) {
        Some(v) => if v <= u64::MAX {
            Some(v as u64)
        } else {
            None
        },
        None => None,
    }
}

pub open spec fn i64_of(t: Seq<char>) -> Option<i64> {
    match signed_value(t) {
        Some(v) => if i64::MIN <= v <= i64::MAX {
            Some(v as i64)
        } else {
            None
        },
        None => None,
    }
}

pub open spec fn i32_of(t: Seq<char>) -> Option<i32> {
    match signed_value(t) {
        Some(v) => if i32::MIN <= v <= i32::MAX {
            Some(v as i32)
        } else {
            None
        },
        None => None,
    }
}

proof fn lemma_digits_step(t: Seq<char>, k: int)
    requires
        0 <= k < t.len(),
        is_digit(t[k]),
    ensures
        digits_value(t.subrange(0, k + 1)) == digits_value(t.subrange(0, k)) * 10 + digit_value(
            t[k],
        ),
{
    assert(t.subrange(0, k + 1).drop_last() =~= t.subrange(0, k));
    assert(t.subrange(0, k + 1).last() == t[k]);
}

proof fn lemma_digits_grow(t: Seq<char>, k: int, j: int)
    requires
        0 <= k <= j <= t.len(),
        forall|x: int| 0 <= x < t.len() ==> is_digit(#[trigger] t[x]),
    ensures
        digits_value(t.subrange(0, k)) <= digits_value(t.subrange(0, j)),
    decreases j - k,
{
    if k < j {
        lemma_digits_grow(t, k, j - 1);
        lemma_digits_step(t, j - 1);
    }
}

/// Value of the digits `t@[from..]`, if it is at most `max`.
fn digits_at_most(t: &str, from: usize, max: u64) -> (r: Option<u64>)
    requires
        from <= t@.len(),
        max >= 9,
    ensures
        all_digits(t@.subrange(from as int, t@.len() as int)) && digits_value(
            t@.subrange(from as int, t@.len() as int),
        ) <= max <==> r is Some,
        r matches Some(v) ==> v == digits_value(t@.subrange(from as int, t@.len() as int)),
{
    let n = t.unicode_len();
    let ghost d = t@.subrange(from as int, n as int);
    if from >= n {
        return None;
    }
    let mut k = from;
    while k < n
        invariant
            from <= k <= n,
            n == t@.len(),
            d == t@.subrange(from as int, n as int),
            forall|x: int| 0 <= x < k - from ==> is_digit(#[trigger] d[x]),
        decreases n - k,
    {
        let c = t.get_char(k);
        if !('0' <= c && c <= '9') {
            assert(!is_digit(d[k - from]));
            return None;
        }
        k = k + 1;
    }
    let mut acc: u64 = 0;
    let mut k = from;
    while k < n
        invariant
            from <= k <= n,
            n == t@.len(),
            d == t@.subrange(from as int, n as int),
            forall|x: int| 0 <= x < d.len() ==> is_digit(#[trigger] d[x]),
            acc == digits_value(d.subrange(0, k - from)),
            acc <= max,
            max >= 9,
        decreases n - k,
    {
        let c = t.get_char(k);
        proof {
            lemma_digits_step(d, k - from);
            assert(d[k - from] == c);
        }
        let digit = (c as u32 - '0' as u32) as u64;
        if acc > (max - digit) / 10 {
            proof {
                lemma_digits_grow(d, k - from + 1, d.len() as int);
                assert(d.subrange(0, d.len() as int) =~= d);
                assert(acc * 10 + digit > max) by (nonlinear_arith)
                    requires
                        acc > (max - digit) / 10,
                        digit <= max || digit > max,
                ;
            }
            return None;
        }
        proof {
            assert(acc * 10 + digit <= max) by (nonlinear_arith)
                requires
                    acc <= (max - digit) / 10,
                    digit <= max,
            ;
        }
        acc = acc * 10 + digit;
        k = k + 1;
    }
    assert(d.subrange(0, d.len() as int) =~= d);
    Some(acc)
}

/// Reads a non-negative integer of at most `max`, as `str::parse` does.
fn unsigned_at_most(t: &str, max: u64) -> (r: Option<u64>)
    requires
        max >= 9,
    ensures
        r matches Some(v) ==> unsigned_value(t@) == Some(v as int),
        r is Some <==> (unsigned_value(t@) matches Some(v) && v <= max),
{
    let n = t.unicode_len();
    if n > 0 && t.get_char(0) == '+' {
        proof {
            assert(t@.subrange(1, t@.len() as int) =~= t@.drop_first());
        }
        digits_at_most(t, 1, max)
    } else {
        proof {
            assert(t@.subrange(0, t@.len() as int) =~= t@);
            if n > 0 {
                assert(!is_digit(t@[0]) ==> !all_digits(t@));
            }
        }
        digits_at_most(t, 0, max)
    }
}

pub fn parse_u32(t: &str) -> (r: Option<u32>)
    ensures
        r == u32_of(t@),
{
    match unsigned_at_most(t, u32::MAX as u64) {
        Some(v) => Some(v as u32),
        None => None,
    }
}

pub fn parse_u64(t: &str) -> (r: Option<u64>)
    ensures
        r == u64_of(t@),
{
    unsigned_at_most(t, u64::MAX)
}

/// Reads a signed integer within `-neg_max ..= pos_max`.
fn signed_within(t: &str, neg_max: u64, pos_max: u64) -> (r: Option<(bool, u64)>)
    requires
        neg_max >= 9,
        pos_max >= 9,
    ensures
        r matches Some((neg, v)) ==> signed_value(t@) == Some(if neg { -v } else { v as int }),
        r matches Some((neg, v)) ==> if neg { v <= neg_max } else { v <= pos_max },
        r is Some <==> (signed_value(t@) matches Some(v) && -neg_max <= v <= pos_max),
{
    let n = t.unicode_len();
    if n > 0 && t.get_char(0) == '-' {
        proof {
            assert(t@.subrange(1, t@.len() as int) =~= t@.drop_first());
        }
        match digits_at_most(t, 1, neg_max) {
            Some(v) => Some((true, v)),
            None => None,
        }
    } else {
        match unsigned_at_most(t, pos_max) {
            Some(v) => Some((false, v)),
            None => None,
        }
    }
}

pub fn parse_i64(t: &str) -> (r: Option<i64>)
    ensures
        r == i64_of(t@),
{
    match signed_within(t, 0x8000_0000_0000_0000u64, 0x7fff_ffff_ffff_ffffu64) {
        Some((true, v)) => if v == 0x8000_0000_0000_0000u64 {
            Some(i64::MIN)
        } else {
            Some(-(v as i64))
        },
        Some((false, v)) => Some(v as i64),
        None => None,
    }
}

pub fn parse_i32(t: &str) -> (r: Option<i32>)
    ensures
        r == i32_of(t@),
{
    match signed_within(t, 0x8000_0000u64, 0x7fff_ffffu64) {
        Some((true, v)) => if v == 0x8000_0000u64 {
            Some(i32::MIN)
        } else {
            Some(-(v as i32))
        },
        Some((false, v)) => Some(v as i32),
        None => None,
    }
}

/// The decimal digit for `d < 10`.
pub open spec fn digit_char(d: nat) -> char {
    if d == 0 {
        '0'
    } else if d == 1 {
        '1'
    } else if d == 2 {
        '2'
    } else if d == 3 {
        '3'
    } else if d == 4 {
        '4'
    } else if d == 5 {
        '5'
    } else if d == 6 {
        '6'
    } else if d == 7 {
        '7'
    } else if d == 8 {
        '8'
    } else {
        '9'
    }
}

/// `n` in decimal, without leading zeros.
pub open spec fn dec_text(n: nat) -> Seq<char>
    decreases n,
{
    if n < 10 {
        seq![digit_char(n)]
    } else {
        dec_text(n / 10).push(digit_char(n % 10))
    }
}

/// `i` in decimal, with a leading `-` when negative.
pub open spec fn signed_text(i: int) -> Seq<char> {
    if i < 0 {
        seq!['-'] + dec_text((-i) as nat)
    } else {
        dec_text(i as nat)
    }
}

/// Relies on `Display for u64` (through `ToString`): decimal digits without
/// leading zeros.
#[verifier::external_body]
pub(crate) fn u64_text(n: u64) -> (r: String)
    ensures
        r@ == dec_text(n as nat),
{
    n.to_string()
}

/// Relies on `Display for i64` (through `ToString`): decimal digits without
/// leading zeros, after a `-` for negative numbers.
#[verifier::external_body]
pub(crate) fn i64_text(n: i64) -> (r: String)
    ensures
        r@ == signed_text(n as int),
{
    n.to_string()
}

proof fn lemma_digit_char(d: nat)
    requires
        d < 10,
    ensures
        is_digit(digit_char(d)),
        digit_value(digit_char(d)) == d,
{
}

/// Reading back what `dec_text` writes gives the number.
pub proof fn lemma_dec_text(n: nat)
    ensures
        all_digits(dec_text(n)),
        digits_value(dec_text(n)) == n,
        dec_text(n)[0] != '+' && dec_text(n)[0] != '-',
    decreases n,
{
    lemma_digit_char(n % 10);
    if n < 10 {
        let t = dec_text(n);
        assert(t.drop_last() =~= Seq::<char>::empty());
        assert(digits_value(t) == digits_value(t.drop_last()) * 10 + digit_value(t.last()));
        assert(n % 10 == n);
    } else {
        lemma_dec_text(n / 10);
        let t = dec_text(n);
        assert(t.drop_last() =~= dec_text(n / 10));
        assert(t.last() == digit_char(n % 10));
        assert(n == (n / 10) * 10 + n % 10);
        assert(digits_value(t) == digits_value(t.drop_last()) * 10 + digit_value(t.last()));
        assert forall|k: int| 0 <= k < t.len() implies is_digit(#[trigger] t[k]) by {
            if k < t.len() - 1 {
                assert(t[k] == dec_text(n / 10)[k]);
            }
        }
    }
}

/// Reading back what `signed_text` writes gives the number.
pub proof fn lemma_signed_text(i: int)
    ensures
        signed_value(signed_text(i)) == Some(i),
        unsigned_value(signed_text(i)) == (if i >= 0 {
            Some(i)
        } else {
            None::<int>
        }),
{
    if i < 0 {
        lemma_dec_text((-i) as nat);
        let t = signed_text(i);
        assert(t.drop_first() =~= dec_text((-i) as nat));
        assert(!is_digit(t[0]));
    } else {
        lemma_dec_text(i as nat);
    }
}

/// What `u64_text` writes, `parse_u64` reads back; likewise for `u32`.
pub proof fn lemma_unsigned_round_trip(n: nat)
    ensures
        unsigned_value(dec_text(n)) == Some(n as int),
        n <= u32::MAX ==> u32_of(dec_text(n)) == Some(n as u32),
        n <= u64::MAX ==> u64_of(dec_text(n)) == Some(n as u64),
{
    lemma_dec_text(n);
}

/// What `i64_text` writes, `parse_i64` and (in range) `parse_i32` read back.
pub proof fn lemma_signed_round_trip(i: int)
    ensures
        i64::MIN <= i <= i64::MAX ==> i64_of(signed_text(i)) == Some(i as i64),
        i32::MIN <= i <= i32::MAX ==> i32_of(signed_text(i)) == Some(i as i32),
{
    lemma_signed_text(i);
}

} // verus!
