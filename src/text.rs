//! Byte-level helpers shared by the parsers: searching, decimal digits.
use vstd::prelude::*;

verus! {

/// The first index `j >= i` with `s[j] == c`, if any.
pub open spec fn find_from(s: Seq<u8>, c: u8, i: int) -> Option<int>
    decreases s.len() - i,
{
    if i >= s.len() {
        None
    } else if s[i] == c {
        Some(i)
    } else {
        find_from(s, c, i + 1)
    }
}

/// The first index of `c` in `s`, if any.
pub open spec fn find_byte(s: Seq<u8>, c: u8) -> Option<int> {
    find_from(s, c, 0)
}

/// What the first occurrence of `c` at or after `i` means, index by index.
pub proof fn lemma_find_from(s: Seq<u8>, c: u8, i: int)
    requires
        0 <= i,
    ensures
        match find_from(s, c, i) {
            Some(j) => i <= j < s.len() && s[j] == c && forall|k: int| i <= k < j ==> s[k] != c,
            None => forall|k: int| i <= k < s.len() ==> s[k] != c,
        },
    decreases s.len() - i,
{
    if i < s.len() && s[i] != c {
        lemma_find_from(s, c, i + 1);
    }
}

/// A byte found after bytes that all differ from it is the first occurrence.
pub proof fn lemma_find_from_at(s: Seq<u8>, c: u8, i: int, j: int)
    requires
        0 <= i <= j < s.len(),
        s[j] == c,
        forall|k: int| i <= k < j ==> s[k] != c,
    ensures
        find_from(s, c, i) == Some(j),
    decreases j - i,
{
    if i < j {
        lemma_find_from_at(s, c, i + 1, j);
    }
}

/// Returns the first index of `c` in `s`.
pub fn find(s: &[u8], c: u8) -> (r: Option<usize>)
    ensures
        r matches Some(j) ==> find_byte(s@, c) == Some(j as int),
        r is None ==> find_byte(s@, c) is None,
{
    let mut i: usize = 0;
    while i < s.len()
        invariant
            i <= s@.len(),
            find_from(s@, c, 0) == find_from(s@, c, i as int),
        decreases s@.len() - i,
    {
        if s[i] == c {
            return Some(i);
        }
        i = i + 1;
    }
    None
}

/// Returns the first index of `c` in `s` at or after `start`.
pub fn find_at(s: &[u8], c: u8, start: usize) -> (r: Option<usize>)
    ensures
        r matches Some(j) ==> find_from(s@, c, start as int) == Some(j as int),
        r is None ==> find_from(s@, c, start as int) is None,
{
    let mut i: usize = start;
    while i < s.len()
        invariant
            start <= i,
            find_from(s@, c, start as int) == find_from(s@, c, i as int),
        decreases s@.len() - i,
    {
        if s[i] == c {
            return Some(i);
        }
        i = i + 1;
    }
    None
}

/// An ASCII decimal digit.
pub open spec fn is_digit(b: u8) -> bool {
    48 <= b <= 57
}

/// Every byte of `s` is an ASCII decimal digit.
pub open spec fn all_digits(s: Seq<u8>) -> bool {
    forall|i: int| 0 <= i < s.len() ==> is_digit(#[trigger] s[i])
}

/// The number written by the decimal digits `s` (most significant first).
pub open spec fn digits_value(s: Seq<u8>) -> nat
    decreases s.len(),
{
    if s.len() == 0 {
        0
    } else {
        digits_value(s.drop_last()) * 10 + (s.last() - 48) as nat
    }
}

/// Ten to the power `n`.
pub open spec fn pow10(n: nat) -> nat
    decreases n,
{
    if n == 0 {
        1
    } else {
        10 * pow10((n - 1) as nat)
    }
}

/// Digits written one after the other: the first group shifts left.
pub proof fn lemma_digits_concat(a: Seq<u8>, b: Seq<u8>)
    ensures
        digits_value(a + b) == digits_value(a) * pow10(b.len()) + digits_value(b),
    decreases b.len(),
{
    if b.len() == 0 {
        assert(a + b =~= a);
        assert(pow10(0) == 1);
        assert(digits_value(a) * 1 == digits_value(a));
    } else {
        let b0 = b.drop_last();
        assert((a + b).drop_last() =~= a + b0);
        assert((a + b).last() == b.last());
        lemma_digits_concat(a, b0);
        let p = pow10(b0.len());
        assert(pow10(b.len()) == 10 * p);
        assert((digits_value(a) * p + digits_value(b0)) * 10 == digits_value(a) * (10 * p)
            + digits_value(b0) * 10) by (nonlinear_arith);
        assert(digits_value(a + b) == digits_value(a + b0) * 10 + (b.last() - 48) as nat);
        assert(digits_value(b) == digits_value(b0) * 10 + (b.last() - 48) as nat);
    }
}


/// Splits `s` around the first occurrence of `c`, which is left out.
pub fn split_once(s: &[u8], c: u8) -> (r: Option<(&[u8], &[u8])>)
    ensures
        r matches Some((x, y)) ==> find_byte(s@, c) == Some(x@.len() as int) && x@ == s@.take(
            x@.len() as int,
        ) && y@ == s@.skip(x@.len() + 1 as int),
        r is None ==> find_byte(s@, c) is None,
{
    match find(s, c) {
        Some(p) => {
            proof {
                lemma_find_from(s@, c, 0);
            }
            assert(p < s.len());
            let x = vstd::slice::slice_subrange(s, 0, p);
            let y = vstd::slice::slice_subrange(s, p + 1, s.len());
            assert(y@ =~= s@.skip(p + 1));
            assert(x@ =~= s@.take(p as int));
            Some((x, y))
        },
        None => None,
    }
}

/// Folding one more digit into a value that saturates at `cap`.
pub proof fn lemma_saturate_step(v: nat, d: nat, cap: nat)
    requires
        cap > 0,
    ensures
        (if v < cap { v } else { cap }) * 10 + d >= cap <==> v * 10 + d >= cap,
        v < cap ==> (if v < cap { v } else { cap }) * 10 + d == v * 10 + d,
{
    if v >= cap {
        assert(v * 10 + d >= cap) by (nonlinear_arith)
            requires
                v >= cap,
        ;
        assert(cap * 10 + d >= cap) by (nonlinear_arith)
            requires
                cap > 0,
        ;
    }
}

} // verus!
