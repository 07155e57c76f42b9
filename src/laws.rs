//! What holds of the shortlex order as a whole, proved over the model of
//! `order`.
use crate::order::{
    all_distinct,
    count_shorter,
    digits_at,
    digits_valid,
    lemma_digits_at_position_of,
    lemma_index_in_found,
    lemma_position_of_digits_at,
    nth_string,
    padded_digits,
    position_of,
    power,
    resume_digits,
    spell,
    value_of,
    zeros,
};
use vstd::arithmetic::div_mod::lemma_fundamental_div_mod_converse;
use vstd::prelude::*;

verus! {

/// The count of shorter strings grows as `1 + k * count_shorter(k, len - 1)`.
pub proof fn lemma_count_shorter_step(k: int, len: nat)
    requires
        len >= 1,
    ensures
        count_shorter(k, len) == 1 + k * count_shorter(k, (len - 1) as nat),
    decreases len,
{
    if len == 1 {
        assert(count_shorter(k, 0) == 0);
        assert(power(k, 0) == 1);
    } else {
        let a = count_shorter(k, (len - 2) as nat);
        let b = power(k, (len - 2) as nat);
        lemma_count_shorter_step(k, (len - 1) as nat);
        assert(k * (a + b) == k * a + k * b) by (nonlinear_arith);
    }
}

/// The first string of length `len` comes right after all shorter strings.
pub proof fn lemma_skip_position(k: int, len: nat)
    ensures
        position_of(zeros(len), k) == count_shorter(k, len),
    decreases len,
{
    if len > 0 {
        assert(zeros(len).drop_first() =~= zeros((len - 1) as nat));
        lemma_skip_position(k, (len - 1) as nat);
        lemma_count_shorter_step(k, len);
    } else {
        assert(count_shorter(k, 0) == 0);
    }
}

/// Skipping to length `len` starts the order at the alphabet's first
/// character repeated `len` times.
pub proof fn lemma_skip_yields_first_repeated(chars: Seq<char>, len: nat)
    requires
        chars.len() >= 1,
    ensures
        nth_string(chars, count_shorter(chars.len() as int, len)) == Seq::new(
            len,
            |i: int| chars[0],
        ),
{
    let k = chars.len() as int;
    lemma_skip_position(k, len);
    assert(digits_valid(zeros(len), k));
    lemma_digits_at_position_of(zeros(len), k);
    assert(spell(chars, zeros(len)) =~= Seq::new(len, |i: int| chars[0]));
}

/// Resuming from a string made of alphabet characters starts the order at
/// that very string.
pub proof fn lemma_resume_yields_start(chars: Seq<char>, s: Seq<char>)
    requires
        forall|i: int| 0 <= i < s.len() ==> chars.contains(#[trigger] s[i]),
    ensures
        digits_valid(resume_digits(chars, s), chars.len() as int),
        nth_string(chars, position_of(resume_digits(chars, s), chars.len() as int)) == s,
{
    let k = chars.len() as int;
    let d = resume_digits(chars, s);
    let n = s.len() as int;
    assert forall|i: int| 0 <= i < d.len() implies 0 <= #[trigger] d[i] < k
        && chars[d[i]] == s[n - 1 - i] by {
        lemma_index_in_found(chars, s[n - 1 - i]);
    }
    if n == 0 {
        assert(d =~= Seq::<int>::empty());
        assert(nth_string(chars, 0) =~= s);
    } else {
        assert(chars.contains(s[0]));
        lemma_digits_at_position_of(d, k);
        assert(spell(chars, d) =~= s);
    }
}

/// A valid digit vector sits after all shorter strings by its plain value.
proof fn lemma_position_splits(d: Seq<int>, k: int)
    requires
        k >= 1,
        digits_valid(d, k),
    ensures
        position_of(d, k) == count_shorter(k, d.len()) + value_of(d, k),
        0 <= value_of(d, k) < power(k, d.len()),
        padded_digits(value_of(d, k), k, d.len()) == d,
    decreases d.len(),
{
    if d.len() == 0 {
        assert(count_shorter(k, 0) == 0);
        assert(power(k, 0) == 1);
        assert(padded_digits(0, k, 0) =~= d);
    } else {
        let rest = d.drop_first();
        assert forall|i: int| 0 <= i < rest.len() implies 0 <= #[trigger] rest[i] < k by {
            assert(rest[i] == d[i + 1]);
        }
        lemma_position_splits(rest, k);
        lemma_count_shorter_step(k, d.len());
        let c = count_shorter(k, rest.len());
        let v = value_of(rest, k);
        let p = power(k, rest.len());
        let x = d[0];
        assert(k * (c + v) == k * c + k * v) by (nonlinear_arith);
        assert(0 <= x + k * v < k * p) by (nonlinear_arith)
            requires
                0 <= x < k,
                0 <= v < p,
                k >= 1,
        ;
        lemma_fundamental_div_mod_converse(x + k * v, k, v, x);
        assert(padded_digits(value_of(d, k), k, d.len()) =~= d);
    }
}

/// The `n`-th string has the length `L` with
/// `k^0 + ... + k^(L-1) <= n < k^0 + ... + k^L`, and spells the base-`k`
/// digits of `n - (k^0 + ... + k^(L-1))`, zero padded to `L` digits, most
/// significant first.
pub proof fn lemma_nth_string_shape(chars: Seq<char>, n: int)
    requires
        chars.len() >= 1,
        n >= 0,
    ensures
        ({
            let k = chars.len() as int;
            let len = nth_string(chars, n).len();
            &&& count_shorter(k, len) <= n < count_shorter(k, len + 1)
            &&& nth_string(chars, n) == spell(
                chars,
                padded_digits(n - count_shorter(k, len), k, len),
            )
        }),
{
    let k = chars.len() as int;
    let d = digits_at(n, k);
    lemma_position_of_digits_at(n, k);
    lemma_position_splits(d, k);
    assert(count_shorter(k, d.len() + 1) == count_shorter(k, d.len()) + power(k, d.len()));
}

/// Over an alphabet without repeated characters, distinct places of the
/// order hold distinct strings.
pub proof fn lemma_nth_string_injective(chars: Seq<char>, n1: int, n2: int)
    requires
        chars.len() >= 1,
        all_distinct(chars),
        n1 >= 0,
        n2 >= 0,
        n1 != n2,
    ensures
        nth_string(chars, n1) != nth_string(chars, n2),
{
    let k = chars.len() as int;
    let d1 = digits_at(n1, k);
    let d2 = digits_at(n2, k);
    lemma_position_of_digits_at(n1, k);
    lemma_position_of_digits_at(n2, k);
    if nth_string(chars, n1) == nth_string(chars, n2) {
        let m = d1.len() as int;
        assert(d2.len() == m) by {
            assert(spell(chars, d1).len() == spell(chars, d2).len());
        }
        assert forall|i: int| 0 <= i < m implies d1[i] == d2[i] by {
            let j = m - 1 - i;
            assert(spell(chars, d1)[j] == spell(chars, d2)[j]);
            assert(0 <= d1[i] < k && 0 <= d2[i] < k);
            if d1[i] != d2[i] {
                if d1[i] < d2[i] {
                    assert(chars[d1[i]] != chars[d2[i]]);
                } else {
                    assert(chars[d2[i]] != chars[d1[i]]);
                }
            }
        }
        assert(d1 =~= d2);
    }
}

} // verus!
