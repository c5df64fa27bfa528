//! Byte-level building blocks of the codec: searching, trimming, ASCII case
//! folding and unsigned number parsing, each with its mathematical meaning.

use vstd::prelude::*;

verus! {

pub const LF: u8 = 10;

pub const CR: u8 = 13;

pub const COLON: u8 = 58;

pub const PLUS: u8 = 43;

/// ASCII whitespace: space, and tab through carriage return.
pub open spec fn is_ws(b: u8) -> bool {
    b == 32 || (9 <= b && b <= 13)
}

/// Index of the first `b` in `s` at or after `i`, or -1 when there is none.
pub open spec fn index_of(s: Seq<u8>, b: u8, i: int) -> int
    decreases s.len() - i,
{
    if i < 0 || i >= s.len() {
        -1
    } else if s[i] == b {
        i
    } else {
        index_of(s, b, i + 1)
    }
}

pub proof fn lemma_index_of(s: Seq<u8>, b: u8, i: int)
    requires
        0 <= i,
    ensures
        index_of(s, b, i) == -1 || (i <= index_of(s, b, i) < s.len() && s[index_of(s, b, i)]
            == b),
        index_of(s, b, i) == -1 ==> forall|j: int| i <= j < s.len() ==> s[j] != b,
    decreases s.len() - i,
{
    if i < s.len() && s[i] != b {
        lemma_index_of(s, b, i + 1);
    }
}

/// `t` without its leading whitespace.
pub open spec fn trim_start(t: Seq<u8>) -> Seq<u8>
    decreases t.len(),
{
    if t.len() > 0 && is_ws(t[0]) {
        trim_start(t.drop_first())
    } else {
        t
    }
}

/// `t` without its trailing whitespace.
pub open spec fn trim_end(t: Seq<u8>) -> Seq<u8>
    decreases t.len(),
{
    if t.len() > 0 && is_ws(t.last()) {
        trim_end(t.drop_last())
    } else {
        t
    }
}

/// `t` without surrounding whitespace.
pub open spec fn trimmed(t: Seq<u8>) -> Seq<u8> {
    trim_end(trim_start(t))
}

/// ASCII lower case of one byte.
pub open spec fn lower(b: u8) -> u8 {
    if 65 <= b && b <= 90 {
        (b + 32) as u8
    } else {
        b
    }
}

/// `t` with its ASCII letters in lower case.
pub open spec fn lowered(t: Seq<u8>) -> Seq<u8> {
    t.map_values(|b: u8| lower(b))
}

/// `pat` occurs in `t`, ignoring ASCII case (`pat` itself being in lower case).
pub open spec fn contains_ignore_case(t: Seq<u8>, pat: Seq<u8>) -> bool {
    exists|i: int|
        0 <= i && i + pat.len() <= t.len() && #[trigger] lowered(t.subrange(i, i + pat.len()))
            == pat
}

/// Value of `b` as a digit in base `radix` (10 or 16), or -1.
pub open spec fn digit_value(b: u8, radix: nat) -> int {
    if 48 <= b && b <= 57 {
        b - 48
    } else if radix == 16 && 97 <= b && b <= 102 {
        b - 87
    } else if radix == 16 && 65 <= b && b <= 70 {
        b - 55
    } else {
        -1
    }
}

pub open spec fn all_digits(d: Seq<u8>, radix: nat) -> bool {
    forall|i: int| 0 <= i < d.len() ==> digit_value(#[trigger] d[i], radix) >= 0
}

/// The number written by the digits `d` in base `radix`, most significant first.
pub open spec fn digits_value(d: Seq<u8>, radix: nat) -> nat
    decreases d.len(),
{
    if d.len() == 0 {
        0
    } else {
        digits_value(d.drop_last(), radix) * radix + digit_value(d.last(), radix) as nat
    }
}

/// `t` without one leading `+`.
pub open spec fn unsigned_digits(t: Seq<u8>) -> Seq<u8> {
    if t.len() > 0 && t[0] == PLUS {
        t.drop_first()
    } else {
        t
    }
}

/// The unsigned number that `t` writes in base `radix`: an optional `+` and one
/// or more digits, worth at most `max`. `None` for anything else.
pub open spec fn unsigned_value(t: Seq<u8>, radix: nat, max: nat) -> Option<nat> {
    let d = unsigned_digits(t);
    if d.len() > 0 && all_digits(d, radix) && digits_value(d, radix) <= max {
        Some(digits_value(d, radix))
    } else {
        None
    }
}

proof fn lemma_digits_value_grows(d: Seq<u8>, j: int, radix: nat)
    requires
        0 <= j <= d.len(),
        all_digits(d, radix),
        radix >= 1,
    ensures
        digits_value(d.subrange(0, j), radix) <= digits_value(d, radix),
    decreases d.len(),
{
    if j == d.len() {
        assert(d.subrange(0, j) =~= d);
    } else {
        let p = d.drop_last();
        assert(all_digits(p, radix)) by {
            assert forall|i: int| 0 <= i < p.len() implies digit_value(#[trigger] p[i], radix)
                >= 0 by {
                assert(p[i] == d[i]);
            }
        }
        lemma_digits_value_grows(p, j, radix);
        assert(p.subrange(0, j) =~= d.subrange(0, j));
        let v = digits_value(p, radix);
        assert(v <= v * radix) by (nonlinear_arith)
            requires
                radix >= 1,
        ;
    }
}

/// Index of the first `b` in `s` at or after `start`.
pub fn find_byte(s: &[u8], b: u8, start: usize) -> (r: Option<usize>)
    requires
        start <= s@.len(),
    ensures
        match r {
            Some(k) => index_of(s@, b, start as int) == k,
            None => index_of(s@, b, start as int) == -1,
        },
{
    let mut j = start;
    while j < s.len()
        invariant
            start <= j <= s@.len(),
            index_of(s@, b, start as int) == index_of(s@, b, j as int),
        decreases s@.len() - j,
    {
        if s[j] == b {
            return Some(j);
        }
        j = j + 1;
    }
    None
}

/// Bounds `(lo, hi)` of `t` without surrounding whitespace.
pub fn trim_bounds(t: &[u8]) -> (r: (usize, usize))
    ensures
        r.0 <= r.1 <= t@.len(),
        t@.subrange(r.0 as int, r.1 as int) == trimmed(t@),
{
    let n = t.len();
    let mut lo: usize = 0;
    assert(t@.subrange(0, n as int) =~= t@);
    while lo < n && (t[lo] == 32 || (9 <= t[lo] && t[lo] <= 13))
        invariant
            lo <= n == t@.len(),
            trim_start(t@) == trim_start(t@.subrange(lo as int, n as int)),
        decreases n - lo,
    {
        assert(t@.subrange(lo as int, n as int).drop_first() =~= t@.subrange(
            lo as int + 1,
            n as int,
        ));
        lo = lo + 1;
    }
    let mut hi: usize = n;
    while hi > lo && (t[hi - 1] == 32 || (9 <= t[hi - 1] && t[hi - 1] <= 13))
        invariant
            lo <= hi <= n == t@.len(),
            trim_start(t@) == t@.subrange(lo as int, n as int) || lo == n,
            trim_end(trim_start(t@)) == trim_end(t@.subrange(lo as int, hi as int)),
        decreases hi - lo,
    {
        assert(t@.subrange(lo as int, hi as int).drop_last() =~= t@.subrange(
            lo as int,
            hi as int - 1,
        ));
        hi = hi - 1;
    }
    (lo, hi)
}

/// Whether `a`, with its ASCII letters lowered, equals `lit`.
pub fn eq_ignore_case(a: &[u8], lit: &[u8]) -> (r: bool)
    ensures
        r == (lowered(a@) == lit@),
{
    if a.len() != lit.len() {
        return false;
    }
    let mut i: usize = 0;
    while i < a.len()
        invariant
            i <= a@.len() == lit@.len(),
            forall|k: int| 0 <= k < i ==> lower(a@[k]) == lit@[k],
        decreases a@.len() - i,
    {
        let c = a[i];
        let l = if 65 <= c && c <= 90 {
            c + 32
        } else {
            c
        };
        if l != lit[i] {
            assert(lowered(a@)[i as int] != lit@[i as int]);
            return false;
        }
        i = i + 1;
    }
    assert(lowered(a@) =~= lit@);
    true
}

/// Whether `pat` occurs in `t`, ignoring ASCII case.
pub fn contains_ignore_case_exec(t: &[u8], pat: &[u8]) -> (r: bool)
    ensures
        r == contains_ignore_case(t@, pat@),
{
    if pat.len() > t.len() {
        return false;
    }
    if pat.len() == 0 {
        let ghost z: int = 0;
        assert(lowered(t@.subrange(z, z + pat@.len())) =~= pat@);
        return true;
    }
    let tl = t.len();
    let last = tl - pat.len();
    let mut i: usize = 0;
    while i <= last
        invariant
            last + pat@.len() == t@.len() == tl,
            pat@.len() > 0,
            i <= last + 1,
            forall|j: int|
                0 <= j < i ==> #[trigger] lowered(t@.subrange(j, j + pat@.len())) != pat@,
        decreases last + 1 - i,
    {
        if eq_ignore_case(&t[i..i + pat.len()], pat) {
            return true;
        }
        i = i + 1;
    }
    false
}

/// Value of `b` as a digit in base `radix`.
fn digit_of(b: u8, radix: usize) -> (r: Option<usize>)
    requires
        radix == 10 || radix == 16,
    ensures
        match r {
            Some(x) => digit_value(b, radix as nat) == x && x < radix,
            None => digit_value(b, radix as nat) < 0,
        },
{
    if 48 <= b && b <= 57 {
        Some((b - 48) as usize)
    } else if radix == 16 && 97 <= b && b <= 102 {
        Some((b - 87) as usize)
    } else if radix == 16 && 65 <= b && b <= 70 {
        Some((b - 55) as usize)
    } else {
        None
    }
}

/// Parses an unsigned number in base `radix`: an optional `+` and one or more
/// digits, worth at most `max`.
pub fn parse_unsigned(t: &[u8], radix: usize, max: usize) -> (r: Option<usize>)
    requires
        radix == 10 || radix == 16,
        max >= 16,
    ensures
        match r {
            Some(v) => unsigned_value(t@, radix as nat, max as nat) == Some(v as nat),
            None => unsigned_value(t@, radix as nat, max as nat) is None,
        },
{
    let n = t.len();
    let start: usize = if n > 0 && t[0] == PLUS {
        1
    } else {
        0
    };
    let ghost d = unsigned_digits(t@);
    assert(d =~= t@.subrange(start as int, n as int));
    if start >= n {
        return None;
    }
    let mut v: usize = 0;
    let mut i: usize = start;
    assert(d.subrange(0, 0) =~= Seq::<u8>::empty());
    while i < n
        invariant
            start <= i <= n == t@.len(),
            d == t@.subrange(start as int, n as int),
            d == unsigned_digits(t@),
            radix == 10 || radix == 16,
            max >= 16,
            all_digits(d.subrange(0, i - start), radix as nat),
            v as nat == digits_value(d.subrange(0, i - start), radix as nat),
            v <= max,
        decreases n - i,
    {
        let ghost k = i - start;
        let ghost p = d.subrange(0, k + 1);
        assert(p.drop_last() =~= d.subrange(0, k));
        assert(p.last() == t@[i as int]);
        match digit_of(t[i], radix) {
            None => {
                assert(!all_digits(d, radix as nat)) by {
                    assert(d[k] == t@[i as int]);
                }
                return None;
            },
            Some(x) => {
                assert(all_digits(p, radix as nat)) by {
                    assert forall|j: int| 0 <= j < p.len() implies digit_value(
                        #[trigger] p[j],
                        radix as nat,
                    ) >= 0 by {
                        if j < k {
                            assert(p[j] == d.subrange(0, k)[j]);
                        }
                    }
                }
                let bound = (max - x) / radix;
                if v > bound {
                    assert(v * radix + x > max) by (nonlinear_arith)
                        requires
                            v > bound,
                            bound as int == (max as int - x as int) / (radix as int),
                            radix > 0,
                            x <= max,
                    ;
                    proof {
                        if all_digits(d, radix as nat) {
                            lemma_digits_value_grows(d, k + 1, radix as nat);
                        }
                    }
                    return None;
                }
                assert(v * radix + x <= max) by (nonlinear_arith)
                    requires
                        v <= bound,
                        bound as int == (max as int - x as int) / (radix as int),
                        radix > 0,
                        x <= max,
                ;
                v = v * radix + x;
            },
        }
        i = i + 1;
    }
    assert(d.subrange(0, n - start) =~= d);
    Some(v)
}

/// A byte found in `s` is found at the same place in any extension of `s`.
pub proof fn lemma_index_of_extend(s: Seq<u8>, t: Seq<u8>, b: u8, i: int)
    requires
        0 <= i,
        index_of(s, b, i) >= 0,
    ensures
        index_of(s + t, b, i) == index_of(s, b, i),
    decreases s.len() - i,
{
    if i < s.len() && s[i] != b {
        lemma_index_of_extend(s, t, b, i + 1);
    }
}

} // verus!
