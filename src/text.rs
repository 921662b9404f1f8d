//! Character-level helpers that the assembler's grammar is stated over.
use vstd::prelude::*;

verus! {

/// Unicode `White_Space`, which `str::trim` strips.
pub open spec fn is_ws(c: char) -> bool {
    ('\u{9}' <= c && c <= '\u{d}') || c == ' ' || c == '\u{85}' || c == '\u{a0}'
        || c == '\u{1680}' || ('\u{2000}' <= c && c <= '\u{200a}') || c == '\u{2028}'
        || c == '\u{2029}' || c == '\u{202f}' || c == '\u{205f}' || c == '\u{3000}'
}

/// First index at or after `i` that holds `c`, or -1.
pub open spec fn find_from(s: Seq<char>, c: char, i: int) -> int
    decreases s.len() - i,
{
    if i < 0 || i >= s.len() {
        -1
    } else if s[i] == c {
        i
    } else {
        find_from(s, c, i + 1)
    }
}

pub open spec fn find(s: Seq<char>, c: char) -> int {
    find_from(s, c, 0)
}

/// First index at or after `i` that holds no whitespace (or the length).
pub open spec fn skip_ws(s: Seq<char>, i: int) -> int
    decreases s.len() - i,
{
    if 0 <= i < s.len() && is_ws(s[i]) {
        skip_ws(s, i + 1)
    } else {
        i
    }
}

/// End of `s[..j]` once trailing whitespace is dropped.
pub open spec fn back_ws(s: Seq<char>, j: int) -> int
    decreases j,
{
    if 0 < j <= s.len() && is_ws(s[j - 1]) {
        back_ws(s, j - 1)
    } else {
        j
    }
}

/// `s` without leading and trailing whitespace.
pub open spec fn trim(s: Seq<char>) -> Seq<char> {
    let a = skip_ws(s, 0);
    let b = back_ws(s, s.len() as int);
    if a < b {
        s.subrange(a, b)
    } else {
        Seq::empty()
    }
}

pub proof fn lemma_find_from_range(s: Seq<char>, c: char, i: int)
    ensures
        find_from(s, c, i) == -1 || (i <= find_from(s, c, i) < s.len() && s[find_from(s, c, i)]
            == c),
    decreases s.len() - i,
{
    if 0 <= i < s.len() && s[i] != c {
        lemma_find_from_range(s, c, i + 1);
    }
}

pub fn is_ws_char(c: char) -> (r: bool)
    ensures
        r == is_ws(c),
{
    ('\u{9}' <= c && c <= '\u{d}') || c == ' ' || c == '\u{85}' || c == '\u{a0}' || c
        == '\u{1680}' || ('\u{2000}' <= c && c <= '\u{200a}') || c == '\u{2028}' || c
        == '\u{2029}' || c == '\u{202f}' || c == '\u{205f}' || c == '\u{3000}'
}

/// The characters of `s`, in order.
pub fn chars_of(s: &str) -> (r: Vec<char>)
    ensures
        r@ == s@,
{
    let mut out: Vec<char> = Vec::new();
    for c in it: s.chars()
        invariant
            it.seq() == s@,
            out@ == it.seq().subrange(0, it.index() as int),
    {
        out.push(c);
        assert(out@ =~= it.seq().subrange(0, it.index() + 1));
    }
    assert(out@ =~= s@);
    out
}

/// A copy of `s[lo..hi]`.
pub fn slice(s: &Vec<char>, lo: usize, hi: usize) -> (r: Vec<char>)
    requires
        lo <= hi <= s@.len(),
    ensures
        r@ == s@.subrange(lo as int, hi as int),
{
    let mut out: Vec<char> = Vec::new();
    let mut i = lo;
    while i < hi
        invariant
            lo <= i <= hi <= s@.len(),
            out@ == s@.subrange(lo as int, i as int),
        decreases hi - i,
    {
        out.push(s[i]);
        i += 1;
        assert(out@ =~= s@.subrange(lo as int, i as int));
    }
    out
}

/// Index of the first `c` in `s`, if any.
pub fn find_char(s: &Vec<char>, c: char) -> (r: Option<usize>)
    ensures
        match r {
            Some(i) => find(s@, c) == i as int,
            None => find(s@, c) == -1,
        },
{
    find_char_from(s, c, 0)
}

/// Index of the first `c` in `s` at or after `from`, if any.
pub fn find_char_from(s: &Vec<char>, c: char, from: usize) -> (r: Option<usize>)
    requires
        from <= s@.len(),
    ensures
        match r {
            Some(i) => find_from(s@, c, from as int) == i as int,
            None => find_from(s@, c, from as int) == -1,
        },
{
    let mut i: usize = from;
    while i < s.len()
        invariant
            from <= i <= s@.len(),
            find_from(s@, c, i as int) == find_from(s@, c, from as int),
        decreases s@.len() - i,
    {
        if s[i] == c {
            return Some(i);
        }
        i += 1;
    }
    None
}

/// `s` without leading and trailing whitespace.
pub fn trimmed(s: &Vec<char>) -> (r: Vec<char>)
    ensures
        r@ == trim(s@),
{
    let mut a: usize = 0;
    while a < s.len() && is_ws_char(s[a])
        invariant
            a <= s@.len(),
            skip_ws(s@, a as int) == skip_ws(s@, 0),
        decreases s@.len() - a,
    {
        a += 1;
    }
    let mut b: usize = s.len();
    while b > 0 && is_ws_char(s[b - 1])
        invariant
            b <= s@.len(),
            back_ws(s@, b as int) == back_ws(s@, s@.len() as int),
        decreases b,
    {
        b -= 1;
    }
    if a < b {
        slice(s, a, b)
    } else {
        Vec::new()
    }
}

/// Value of `c` as a digit in base `radix` (at most 36), or -1.
pub open spec fn digit_of(c: char, radix: int) -> int {
    let d = if '0' <= c && c <= '9' {
        c as int - '0' as int
    } else if 'a' <= c && c <= 'z' {
        c as int - 'a' as int + 10
    } else if 'A' <= c && c <= 'Z' {
        c as int - 'A' as int + 10
    } else {
        36
    };
    if d < radix {
        d
    } else {
        -1
    }
}

pub open spec fn all_digits(s: Seq<char>, radix: int) -> bool {
    forall|i: int| 0 <= i < s.len() ==> digit_of(#[trigger] s[i], radix) >= 0
}

/// The number that the digits of `s` write in base `radix`.
pub open spec fn digits_value(s: Seq<char>, radix: int) -> int
    decreases s.len(),
{
    if s.len() == 0 {
        0
    } else {
        digits_value(s.drop_last(), radix) * radix + digit_of(s.last(), radix)
    }
}

/// An optional sign and at least one digit in base `radix`, whose value fits in an `i64`.
pub open spec fn parse_int(s: Seq<char>, radix: int) -> Option<i64> {
    let neg = s.len() > 0 && s[0] == '-';
    let signed = s.len() > 0 && (s[0] == '-' || s[0] == '+');
    let ds = if signed {
        s.drop_first()
    } else {
        s
    };
    if ds.len() == 0 || !all_digits(ds, radix) {
        None
    } else {
        let v = if neg {
            -digits_value(ds, radix)
        } else {
            digits_value(ds, radix)
        };
        if i64::MIN <= v <= i64::MAX {
            Some(v as i64)
        } else {
            None
        }
    }
}

proof fn lemma_digits_grow(s: Seq<char>, radix: int, k: int)
    requires
        2 <= radix,
        0 <= k <= s.len(),
        all_digits(s, radix),
    ensures
        0 <= digits_value(s.subrange(0, k), radix) <= digits_value(s, radix),
    decreases s.len(),
{
    if k < s.len() {
        let t = s.drop_last();
        assert(all_digits(t, radix)) by {
            assert forall|i: int| 0 <= i < t.len() implies digit_of(#[trigger] t[i], radix)
                >= 0 by {
                assert(t[i] == s[i]);
            }
        }
        lemma_digits_grow(t, radix, k);
        assert(t.subrange(0, k) =~= s.subrange(0, k));
        assert(digit_of(s[s.len() - 1], radix) >= 0);
        let a = digits_value(t, radix);
        assert(a * radix >= a) by (nonlinear_arith)
            requires
                a >= 0,
                radix >= 2,
        ;
    } else {
        assert(s.subrange(0, k) =~= s);
        if s.len() > 0 {
            lemma_digits_grow(s.drop_last(), radix, 0);
            let a = digits_value(s.drop_last(), radix);
            assert(digit_of(s[s.len() - 1], radix) >= 0);
            assert(a * radix >= 0) by (nonlinear_arith)
                requires
                    a >= 0,
                    radix >= 2,
            ;
            assert(s.drop_last().subrange(0, 0) =~= Seq::<char>::empty());
        }
    }
}

pub fn digit_value(c: char, radix: u32) -> (r: i64)
    requires
        2 <= radix <= 36,
    ensures
        r == digit_of(c, radix as int),
{
    let d: i64 = if '0' <= c && c <= '9' {
        (c as u32 - '0' as u32) as i64
    } else if 'a' <= c && c <= 'z' {
        (c as u32 - 'a' as u32) as i64 + 10
    } else if 'A' <= c && c <= 'Z' {
        (c as u32 - 'A' as u32) as i64 + 10
    } else {
        36
    };
    if d < radix as i64 {
        d
    } else {
        -1
    }
}

/// Reads `s` as a signed integer in base `radix`, as `i64::from_str_radix` does.
pub fn parse_radix(s: &Vec<char>, radix: u32) -> (r: Option<i64>)
    requires
        2 <= radix <= 36,
    ensures
        r == parse_int(s@, radix as int),
{
    let n = s.len();
    let neg = n > 0 && s[0] == '-';
    let start: usize = if n > 0 && (s[0] == '-' || s[0] == '+') {
        1
    } else {
        0
    };
    let ghost ds = if start == 1 {
        s@.drop_first()
    } else {
        s@
    };
    assert(ds =~= s@.subrange(start as int, n as int));
    if start == n {
        return None;
    }
    let limit: u128 = 0x8000_0000_0000_0000;
    let mut mag: u128 = 0;
    let mut i: usize = start;
    while i < n
        invariant
            start <= i <= n == s@.len(),
            2 <= radix <= 36,
            limit == 0x8000_0000_0000_0000,
            start == 1 <==> (n > 0 && (s@[0] == '-' || s@[0] == '+')),
            start <= 1,
            ds == (if start == 1 {
                s@.drop_first()
            } else {
                s@
            }),
            ds == s@.subrange(start as int, n as int),
            all_digits(ds.subrange(0, i - start), radix as int),
            mag == digits_value(ds.subrange(0, i - start), radix as int),
            mag <= limit,
        decreases n - i,
    {
        let d = digit_value(s[i], radix);
        let ghost pre = ds.subrange(0, i - start);
        let ghost next = ds.subrange(0, i + 1 - start);
        assert(next.drop_last() =~= pre);
        if d < 0 {
            assert(ds[i - start] == s@[i as int]);
            assert(digit_of(ds[i - start], radix as int) < 0);
            assert(!all_digits(ds, radix as int));
            return None;
        }
        assert(all_digits(next, radix as int)) by {
            assert forall|j: int| 0 <= j < next.len() implies digit_of(
                #[trigger] next[j],
                radix as int,
            ) >= 0 by {
                if j < pre.len() {
                    assert(next[j] == pre[j]);
                } else {
                    assert(next[j] == s@[i as int]);
                }
            }
        }
        assert(next.last() == s@[i as int]);
        let r128 = radix as u128;
        assert(mag * r128 <= limit * 36) by (nonlinear_arith)
            requires
                mag <= limit,
                r128 <= 36,
        ;
        let v = mag * r128 + (d as u128);
        if v > limit {
            proof {
                assert(digits_value(next, radix as int) == digits_value(pre, radix as int) * radix
                    + digit_of(s@[i as int], radix as int));
                assert(v as int == digits_value(next, radix as int));
                if all_digits(ds, radix as int) {
                    lemma_digits_grow(ds, radix as int, i + 1 - start);
                    assert(digits_value(ds, radix as int) > limit);
                }
            }
            return None;
        }
        mag = v;
        i += 1;
    }
    assert(ds.subrange(0, n - start) =~= ds);
    if neg {
        Some((0 - (mag as i128)) as i64)
    } else if mag < limit {
        Some(mag as i64)
    } else {
        None
    }
}

/// Whether `a` and `b` hold the same characters.
pub fn same_chars(a: &Vec<char>, b: &[char]) -> (r: bool)
    ensures
        r == (a@ == b@),
{
    if a.len() != b.len() {
        return false;
    }
    let mut i: usize = 0;
    while i < a.len()
        invariant
            i <= a@.len() == b@.len(),
            forall|k: int| 0 <= k < i ==> a@[k] == b@[k],
        decreases a@.len() - i,
    {
        if a[i] != b[i] {
            return false;
        }
        i += 1;
    }
    assert(a@ =~= b@);
    true
}

/// ASCII upper case of `c`; other characters stay.
pub open spec fn upper(c: char) -> char {
    if 'a' <= c && c <= 'z' {
        ((c as u8) - 32) as char
    } else {
        c
    }
}

pub open spec fn upper_word(s: Seq<char>) -> Seq<char> {
    s.map_values(|c: char| upper(c))
}

pub fn to_upper(s: &Vec<char>) -> (r: Vec<char>)
    ensures
        r@ == upper_word(s@),
{
    let mut out: Vec<char> = Vec::new();
    let mut i: usize = 0;
    while i < s.len()
        invariant
            i <= s@.len(),
            out@ == upper_word(s@.subrange(0, i as int)),
        decreases s@.len() - i,
    {
        let c = s[i];
        let u = if 'a' <= c && c <= 'z' {
            ((c as u8) - 32) as char
        } else {
            c
        };
        out.push(u);
        i += 1;
        assert(out@ =~= upper_word(s@.subrange(0, i as int)));
    }
    assert(s@.subrange(0, s@.len() as int) =~= s@);
    out
}

/// `a` and `b` differ at most in the ASCII case of letters.
pub open spec fn same_but_case(a: Seq<char>, b: Seq<char>) -> bool {
    a.len() == b.len() && forall|i: int| 0 <= i < a.len() ==> upper(#[trigger] a[i]) == upper(b[i])
}

pub open spec fn is_letter(c: char) -> bool {
    ('a' <= c && c <= 'z') || ('A' <= c && c <= 'Z')
}

pub proof fn lemma_upper_letter(c: char, d: char)
    requires
        upper(c) == upper(d),
    ensures
        is_letter(c) <==> is_letter(d),
        !is_letter(c) ==> c == d,
{
    if 'a' <= c && c <= 'z' {
        assert(upper(c) as u32 == c as u32 - 32);
    }
    if 'a' <= d && d <= 'z' {
        assert(upper(d) as u32 == d as u32 - 32);
    }
}

pub proof fn lemma_case_subrange(a: Seq<char>, b: Seq<char>, i: int, j: int)
    requires
        same_but_case(a, b),
        0 <= i <= j <= a.len(),
    ensures
        same_but_case(a.subrange(i, j), b.subrange(i, j)),
{
    assert forall|k: int| 0 <= k < j - i implies upper(#[trigger] a.subrange(i, j)[k]) == upper(
        b.subrange(i, j)[k],
    ) by {
        assert(a.subrange(i, j)[k] == a[i + k]);
        assert(b.subrange(i, j)[k] == b[i + k]);
    }
}

pub proof fn lemma_case_find(a: Seq<char>, b: Seq<char>, c: char, i: int)
    requires
        same_but_case(a, b),
        !is_letter(c),
    ensures
        find_from(a, c, i) == find_from(b, c, i),
    decreases a.len() - i,
{
    if 0 <= i < a.len() {
        lemma_upper_letter(a[i], b[i]);
        lemma_case_find(a, b, c, i + 1);
    }
}

proof fn lemma_case_skip(a: Seq<char>, b: Seq<char>, i: int)
    requires
        same_but_case(a, b),
    ensures
        skip_ws(a, i) == skip_ws(b, i),
    decreases a.len() - i,
{
    if 0 <= i < a.len() {
        lemma_upper_letter(a[i], b[i]);
        lemma_case_skip(a, b, i + 1);
    }
}

proof fn lemma_case_back(a: Seq<char>, b: Seq<char>, j: int)
    requires
        same_but_case(a, b),
    ensures
        back_ws(a, j) == back_ws(b, j),
    decreases j,
{
    if 0 < j <= a.len() {
        lemma_upper_letter(a[j - 1], b[j - 1]);
        lemma_case_back(a, b, j - 1);
    }
}

pub proof fn lemma_case_trim(a: Seq<char>, b: Seq<char>)
    requires
        same_but_case(a, b),
    ensures
        same_but_case(trim(a), trim(b)),
{
    lemma_case_skip(a, b, 0);
    lemma_case_back(a, b, a.len() as int);
    let x = skip_ws(a, 0);
    let y = back_ws(a, a.len() as int);
    if x < y {
        lemma_skip_ws_bounds(a, 0);
        lemma_back_ws_bounds(a, a.len() as int);
        lemma_case_subrange(a, b, x, y);
    }
}

proof fn lemma_skip_ws_bounds(s: Seq<char>, i: int)
    requires
        0 <= i <= s.len(),
    ensures
        i <= skip_ws(s, i) <= s.len(),
    decreases s.len() - i,
{
    if i < s.len() && is_ws(s[i]) {
        lemma_skip_ws_bounds(s, i + 1);
    }
}

proof fn lemma_back_ws_bounds(s: Seq<char>, j: int)
    requires
        0 <= j <= s.len(),
    ensures
        0 <= back_ws(s, j) <= j,
    decreases j,
{
    if 0 < j && is_ws(s[j - 1]) {
        lemma_back_ws_bounds(s, j - 1);
    }
}

pub proof fn lemma_case_upper_word(a: Seq<char>, b: Seq<char>)
    requires
        same_but_case(a, b),
    ensures
        upper_word(a) == upper_word(b),
{
    assert(upper_word(a) =~= upper_word(b));
}

} // verus!
