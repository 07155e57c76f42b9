//! The shortlex order of all strings over an alphabet, as mathematics.
//!
//! A string of length `L` over an alphabet of `k` characters is described by
//! its digit vector: `L` alphabet indices, least significant first (index 0
//! is the last character of the string). The string's place in the order is
//! the bijective base-`k` value of that vector, `sum (d[i] + 1) * k^i`.
use vstd::arithmetic::div_mod::{
    lemma_div_pos_is_pos,
    lemma_fundamental_div_mod,
    lemma_fundamental_div_mod_converse,
    lemma_mod_pos_bound,
};
use vstd::prelude::*;

verus! {

/// `k` raised to the power `e`.
pub open spec fn power(k: int, e: nat) -> int
    decreases e,
{
    if e == 0 {
        1
    } else {
        k * power(k, (e - 1) as nat)
    }
}

/// How many strings over `k` characters are shorter than `len`:
/// `k^0 + k^1 + ... + k^(len - 1)`.
pub open spec fn count_shorter(k: int, len: nat) -> int
    decreases len,
{
    if len == 0 {
        0
    } else {
        count_shorter(k, (len - 1) as nat) + power(k, (len - 1) as nat)
    }
}

/// Every digit of `d` is an index into an alphabet of `k` characters.
pub open spec fn digits_valid(d: Seq<int>, k: int) -> bool {
    forall|i: int| 0 <= i < d.len() ==> 0 <= #[trigger] d[i] < k
}

/// The place in the shortlex order of the string with digit vector `d`.
pub open spec fn position_of(d: Seq<int>, k: int) -> int
    decreases d.len(),
{
    if d.len() == 0 {
        0
    } else {
        (d[0] + 1) + k * position_of(d.drop_first(), k)
    }
}

/// The ordinary base-`k` value of the digit vector `d`.
pub open spec fn value_of(d: Seq<int>, k: int) -> int
    decreases d.len(),
{
    if d.len() == 0 {
        0
    } else {
        d[0] + k * value_of(d.drop_first(), k)
    }
}

/// The base-`k` representation of `v` in exactly `len` digits, zero padded,
/// least significant first.
pub open spec fn padded_digits(v: int, k: int, len: nat) -> Seq<int>
    decreases len,
{
    if len == 0 {
        seq![]
    } else {
        seq![v % k] + padded_digits(v / k, k, (len - 1) as nat)
    }
}

/// The digit vector of the `n`-th string (counted from 0) of the order.
pub open spec fn digits_at(n: int, k: int) -> Seq<int>
    decreases n,
{
    if n <= 0 || k < 1 {
        seq![]
    } else {
        proof {
            lemma_quotient_bounds(n - 1, k);
        }
        seq![(n - 1) % k] + digits_at((n - 1) / k, k)
    }
}

/// The vector that follows `d`: one added at the least significant digit,
/// with carries, growing by a digit when every digit carries out.
pub open spec fn successor(d: Seq<int>, k: int) -> Seq<int>
    decreases d.len(),
{
    if d.len() == 0 {
        seq![0]
    } else if d[0] + 1 < k {
        d.update(0, d[0] + 1)
    } else {
        seq![0] + successor(d.drop_first(), k)
    }
}

/// The string that digit vector `d` spells over `chars`, most significant
/// digit first.
pub open spec fn spell(chars: Seq<char>, d: Seq<int>) -> Seq<char> {
    Seq::new(d.len(), |j: int| chars[d[d.len() - 1 - j]])
}

/// The `n`-th string (counted from 0) of the shortlex order over `chars`.
pub open spec fn nth_string(chars: Seq<char>, n: int) -> Seq<char> {
    spell(chars, digits_at(n, chars.len() as int))
}

/// `n` zero digits.
pub open spec fn zeros(n: nat) -> Seq<int> {
    Seq::new(n, |i: int| 0)
}

/// The index of the first occurrence of `c` in `chars`, or `chars.len()`
/// when there is none.
pub open spec fn index_in(chars: Seq<char>, c: char) -> int
    decreases chars.len(),
{
    if chars.len() == 0 {
        0
    } else if chars[0] == c {
        0
    } else {
        1 + index_in(chars.drop_first(), c)
    }
}

/// The digit vector that spells `s` over `chars`, each character taken at
/// its first occurrence in `chars`.
pub open spec fn resume_digits(chars: Seq<char>, s: Seq<char>) -> Seq<int> {
    Seq::new(s.len(), |i: int| index_in(chars, s[s.len() - 1 - i]))
}

/// No character occurs twice in `chars`.
pub open spec fn all_distinct(chars: Seq<char>) -> bool {
    forall|i: int, j: int| 0 <= i < j < chars.len() ==> chars[i] != chars[j]
}

/// Quotient and remainder of a natural number by a positive divisor.
pub proof fn lemma_quotient_bounds(x: int, k: int)
    requires
        x >= 0,
        k >= 1,
    ensures
        0 <= x / k <= x,
        0 <= x % k < k,
        x == k * (x / k) + x % k,
{
    lemma_fundamental_div_mod(x, k);
    lemma_div_pos_is_pos(x, k);
    lemma_mod_pos_bound(x, k);
    let q = x / k;
    assert(q <= k * q) by (nonlinear_arith)
        requires
            q >= 0,
            k >= 1,
    ;
}

/// The index found for a character is its first occurrence.
pub proof fn lemma_index_in(chars: Seq<char>, c: char, i: int)
    requires
        0 <= i <= chars.len(),
        forall|j: int| 0 <= j < i ==> chars[j] != c,
        i == chars.len() || chars[i] == c,
    ensures
        index_in(chars, c) == i,
    decreases chars.len(),
{
    if chars.len() > 0 && i > 0 {
        let rest = chars.drop_first();
        assert forall|j: int| 0 <= j < i - 1 implies rest[j] != c by {
            assert(rest[j] == chars[j + 1]);
        }
        lemma_index_in(rest, c, i - 1);
    }
}

/// A character of `chars` is found at an index of `chars` that holds it.
pub proof fn lemma_index_in_found(chars: Seq<char>, c: char)
    requires
        chars.contains(c),
    ensures
        0 <= index_in(chars, c) < chars.len(),
        chars[index_in(chars, c)] == c,
    decreases chars.len(),
{
    if chars[0] != c {
        let rest = chars.drop_first();
        let w = choose|w: int| 0 <= w < chars.len() && chars[w] == c;
        assert(rest[w - 1] == c);
        lemma_index_in_found(rest, c);
    }
}

/// The position of the `n`-th digit vector is `n`, and its digits are valid.
pub proof fn lemma_position_of_digits_at(n: int, k: int)
    requires
        n >= 0,
        k >= 1,
    ensures
        position_of(digits_at(n, k), k) == n,
        digits_valid(digits_at(n, k), k),
    decreases n,
{
    if n > 0 {
        let q = (n - 1) / k;
        let r = (n - 1) % k;
        lemma_quotient_bounds(n - 1, k);
        lemma_position_of_digits_at(q, k);
        let d = digits_at(n, k);
        assert(d.drop_first() =~= digits_at(q, k));
        assert forall|i: int| 0 <= i < d.len() implies 0 <= #[trigger] d[i] < k by {
            if i > 0 {
                assert(d[i] == digits_at(q, k)[i - 1]);
            }
        }
    }
}

/// Every valid digit vector is the digit vector of its own position.
pub proof fn lemma_digits_at_position_of(d: Seq<int>, k: int)
    requires
        k >= 1,
        digits_valid(d, k),
    ensures
        position_of(d, k) >= 0,
        digits_at(position_of(d, k), k) == d,
    decreases d.len(),
{
    if d.len() > 0 {
        let rest = d.drop_first();
        assert forall|i: int| 0 <= i < rest.len() implies 0 <= #[trigger] rest[i] < k by {
            assert(rest[i] == d[i + 1]);
        }
        lemma_digits_at_position_of(rest, k);
        let p = position_of(rest, k);
        let n = position_of(d, k);
        assert(k * p >= 0) by (nonlinear_arith)
            requires
                k >= 1,
                p >= 0,
        ;
        lemma_fundamental_div_mod_converse(n - 1, k, p, d[0]);
        assert(digits_at(n, k) =~= d);
    }
}

/// The successor of a valid vector is valid, and one place further on.
pub proof fn lemma_successor(d: Seq<int>, k: int)
    requires
        k >= 1,
        digits_valid(d, k),
    ensures
        digits_valid(successor(d, k), k),
        position_of(successor(d, k), k) == position_of(d, k) + 1,
    decreases d.len(),
{
    if d.len() > 0 {
        let rest = d.drop_first();
        assert forall|i: int| 0 <= i < rest.len() implies 0 <= #[trigger] rest[i] < k by {
            assert(rest[i] == d[i + 1]);
        }
        let s = successor(d, k);
        if d[0] + 1 < k {
            assert(s.drop_first() =~= rest);
        } else {
            lemma_successor(rest, k);
            let p = position_of(rest, k);
            assert(s.drop_first() =~= successor(rest, k));
            assert(k * (p + 1) == k * p + k) by (nonlinear_arith);
            assert forall|i: int| 0 <= i < s.len() implies 0 <= #[trigger] s[i] < k by {
                if i > 0 {
                    assert(s[i] == successor(rest, k)[i - 1]);
                }
            }
        }
    } else {
        assert(successor(d, k).drop_first() =~= Seq::<int>::empty());
        assert(position_of(Seq::<int>::empty(), k) == 0);
    }
}

/// Adding one to a vector whose first `i` digits are all maximal clears
/// those digits and adds one to the rest.
pub proof fn lemma_successor_carry(d: Seq<int>, k: int, i: int)
    requires
        0 <= i <= d.len(),
        forall|j: int| 0 <= j < i ==> d[j] + 1 >= k,
    ensures
        successor(d, k) == zeros(i as nat) + successor(d.subrange(i, d.len() as int), k),
    decreases i,
{
    if i > 0 {
        let rest = d.drop_first();
        assert forall|j: int| 0 <= j < i - 1 implies rest[j] + 1 >= k by {
            assert(rest[j] == d[j + 1]);
        }
        lemma_successor_carry(rest, k, i - 1);
        assert(rest.subrange(i - 1, rest.len() as int) =~= d.subrange(i, d.len() as int));
        assert(zeros(i as nat) =~= seq![0] + zeros((i - 1) as nat));
        assert(successor(d, k) =~= zeros(i as nat) + successor(
            d.subrange(i, d.len() as int),
            k,
        ));
    } else {
        assert(d.subrange(0, d.len() as int) =~= d);
        assert(zeros(0) + successor(d, k) =~= successor(d, k));
    }
}

} // verus!
