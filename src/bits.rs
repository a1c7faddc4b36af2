use vstd::arithmetic::div_mod::{lemma_breakdown, lemma_div_denominator};
use vstd::prelude::*;

verus! {

/// 2 raised to `k`.
pub open spec fn two_pow(k: nat) -> nat
    decreases k,
{
    if k == 0 {
        1
    } else {
        2 * two_pow((k - 1) as nat)
    }
}

/// The `k` low bits of `v`, most significant first.
pub open spec fn to_bits(v: nat, k: nat) -> Seq<bool>
    decreases k,
{
    if k == 0 {
        Seq::empty()
    } else {
        to_bits(v / 2, (k - 1) as nat).push(v % 2 == 1)
    }
}

/// The unsigned big-endian value of a bit sequence.
pub open spec fn from_bits(s: Seq<bool>) -> nat
    decreases s.len(),
{
    if s.len() == 0 {
        0
    } else {
        2 * from_bits(s.drop_last()) + (if s.last() { 1nat } else { 0nat })
    }
}

/// The `k`-bit groups of all values, concatenated in order.
pub open spec fn concat_bits(vals: Seq<nat>, k: nat) -> Seq<bool>
    decreases vals.len(),
{
    if vals.len() == 0 {
        Seq::empty()
    } else {
        concat_bits(vals.drop_last(), k) + to_bits(vals.last(), k)
    }
}

/// The values of the first `count` consecutive `k`-bit groups of `bits`.
pub open spec fn group_values(bits: Seq<bool>, k: nat, count: nat) -> Seq<nat> {
    Seq::new(count, |i: int| from_bits(bits.subrange(k * i, k * i + k)))
}

/// Bytes as natural numbers.
pub open spec fn byte_values(b: Seq<u8>) -> Seq<nat> {
    b.map_values(|x: u8| x as nat)
}

pub proof fn lemma_two_pow_small()
    ensures
        two_pow(8) == 256,
        two_pow(11) == 2048,
{
    reveal_with_fuel(two_pow, 12);
}

pub proof fn lemma_to_bits_len(v: nat, k: nat)
    ensures
        to_bits(v, k).len() == k,
    decreases k,
{
    if k > 0 {
        lemma_to_bits_len(v / 2, (k - 1) as nat);
    }
}

pub proof fn lemma_from_bits_bound(s: Seq<bool>)
    ensures
        from_bits(s) < two_pow(s.len()),
    decreases s.len(),
{
    if s.len() > 0 {
        lemma_from_bits_bound(s.drop_last());
    }
}

/// Reading back the bits of a value that fits gives the value.
pub proof fn lemma_from_to_bits(v: nat, k: nat)
    requires
        v < two_pow(k),
    ensures
        from_bits(to_bits(v, k)) == v,
    decreases k,
{
    if k > 0 {
        lemma_from_to_bits(v / 2, (k - 1) as nat);
        let t = to_bits(v / 2, (k - 1) as nat);
        assert(to_bits(v, k).drop_last() =~= t);
    }
}

/// Writing out the value of a bit sequence gives the sequence.
pub proof fn lemma_to_from_bits(s: Seq<bool>)
    ensures
        to_bits(from_bits(s), s.len()) == s,
    decreases s.len(),
{
    if s.len() > 0 {
        let f = from_bits(s.drop_last());
        lemma_to_from_bits(s.drop_last());
        let v = from_bits(s);
        assert(v / 2 == f);
        assert((v % 2 == 1) == s.last());
        assert(to_bits(v, s.len()) =~= s.drop_last().push(s.last()));
        assert(s.drop_last().push(s.last()) =~= s);
    }
}

pub proof fn lemma_concat_len(vals: Seq<nat>, k: nat)
    ensures
        concat_bits(vals, k).len() == k * vals.len(),
    decreases vals.len(),
{
    if vals.len() > 0 {
        lemma_concat_len(vals.drop_last(), k);
        lemma_to_bits_len(vals.last(), k);
        assert(k * vals.len() == k * (vals.len() - 1) + k) by (nonlinear_arith);
    }
}

/// The `i`-th group of a concatenation is the bits of the `i`-th value.
pub proof fn lemma_concat_group(vals: Seq<nat>, k: nat, i: int)
    requires
        0 <= i < vals.len(),
    ensures
        k * i + k <= concat_bits(vals, k).len(),
        concat_bits(vals, k).subrange(k * i, k * i + k) == to_bits(vals[i], k),
    decreases vals.len(),
{
    let n = vals.len();
    let a = concat_bits(vals.drop_last(), k);
    lemma_concat_len(vals.drop_last(), k);
    lemma_concat_len(vals, k);
    lemma_to_bits_len(vals.last(), k);
    assert(k * n == k * (n - 1) + k) by (nonlinear_arith);
    if i == n - 1 {
        assert(concat_bits(vals, k).subrange(k * i, k * i + k) =~= to_bits(vals[i], k));
    } else {
        lemma_concat_group(vals.drop_last(), k, i);
        assert(k * i + k <= k * (n - 1)) by (nonlinear_arith)
            requires
                i < n - 1,
                k >= 0,
        ;
        assert(concat_bits(vals, k).subrange(k * i, k * i + k) =~= a.subrange(
            k * i,
            k * i + k,
        ));
    }
}

/// Splitting a concatenation of fitting values into groups gives the values.
pub proof fn lemma_group_concat(vals: Seq<nat>, k: nat)
    requires
        forall|i: int| 0 <= i < vals.len() ==> vals[i] < two_pow(k),
    ensures
        group_values(concat_bits(vals, k), k, vals.len()) == vals,
{
    assert forall|i: int| 0 <= i < vals.len() implies group_values(
        concat_bits(vals, k),
        k,
        vals.len(),
    )[i] == vals[i] by {
        lemma_concat_group(vals, k, i);
        lemma_from_to_bits(vals[i], k);
    }
    assert(group_values(concat_bits(vals, k), k, vals.len()) =~= vals);
}

/// Concatenating the groups of a bit sequence gives back its prefix.
pub proof fn lemma_concat_groups(bits: Seq<bool>, k: nat, count: nat)
    requires
        k * count <= bits.len(),
    ensures
        concat_bits(group_values(bits, k, count), k) == bits.take((k * count) as int),
    decreases count,
{
    let g = group_values(bits, k, count);
    if count == 0 {
        assert(bits.take(0) =~= Seq::<bool>::empty());
        assert(k * count == 0) by (nonlinear_arith)
            requires
                count == 0,
        ;
        assert(concat_bits(g, k) =~= Seq::<bool>::empty());
    } else {
        let c1 = (count - 1) as nat;
        assert(k * count == k * c1 + k) by (nonlinear_arith)
            requires
                c1 == count - 1,
        ;
        lemma_concat_groups(bits, k, c1);
        assert(g.drop_last() =~= group_values(bits, k, c1));
        let last = bits.subrange((k * c1) as int, (k * c1 + k) as int);
        assert(last.len() == k);
        assert(g.last() == from_bits(last));
        lemma_to_from_bits(last);
        assert(bits.take((k * count) as int) =~= bits.take((k * c1) as int) + last);
        assert(concat_bits(g, k) == concat_bits(g.drop_last(), k) + to_bits(g.last(), k));
    }
}

/// Groups read only their own part of the sequence.
pub proof fn lemma_group_prefix(a: Seq<bool>, b: Seq<bool>, k: nat, count: nat)
    requires
        k * count <= a.len(),
    ensures
        group_values(a + b, k, count) == group_values(a, k, count),
{
    assert forall|i: int| 0 <= i < count implies group_values(a + b, k, count)[i]
        == group_values(a, k, count)[i] by {
        assert(k * i + k <= k * count) by (nonlinear_arith)
            requires
                0 <= i < count,
        ;
        assert((a + b).subrange(k * i, k * i + k) =~= a.subrange(k * i, k * i + k));
    }
    assert(group_values(a + b, k, count) =~= group_values(a, k, count));
}

pub proof fn lemma_two_pow_pos(k: nat)
    ensures
        two_pow(k) > 0,
    decreases k,
{
    if k > 0 {
        lemma_two_pow_pos((k - 1) as nat);
    }
}

/// The `a + b` low bits of `v` are the `a` bits of its quotient by 2^`b`, then the
/// `b` bits of its remainder.
pub proof fn lemma_to_bits_split(v: nat, a: nat, b: nat)
    ensures
        to_bits(v, a + b) == to_bits(v / two_pow(b), a) + to_bits(v % two_pow(b), b),
    decreases b,
{
    if b == 0 {
        assert(two_pow(0) == 1);
        assert(v / 1 == v);
        assert(to_bits(v, a) + to_bits(v % 1, 0) =~= to_bits(v, a));
    } else {
        let b1 = (b - 1) as nat;
        let t = two_pow(b1);
        lemma_two_pow_pos(b1);
        lemma_to_bits_split(v / 2, a, b1);
        lemma_div_denominator(v as int, 2, t as int);
        lemma_breakdown(v as int, 2, t as int);
        assert(two_pow(b) == 2 * t);
        let r = v % two_pow(b);
        assert(r / 2 == (v / 2) % t);
        assert(r % 2 == v % 2);
        assert((v / 2) / t == v / two_pow(b));
        assert(to_bits(v, a + b) == to_bits(v / 2, a + b1).push(v % 2 == 1));
        assert(to_bits(r, b) == to_bits(r / 2, b1).push(r % 2 == 1));
        assert(to_bits(v, a + b) =~= to_bits(v / two_pow(b), a) + to_bits(r, b));
    }
}

/// Appends the `k` low bits of `v` to `out`, most significant first.
pub fn push_bits(out: &mut Vec<bool>, v: usize, k: usize)
    ensures
        final(out)@ == old(out)@ + to_bits(v as nat, k as nat),
    decreases k,
{
    if k == 0 {
        assert(old(out)@ + to_bits(v as nat, 0) =~= old(out)@);
        return;
    }
    push_bits(out, v / 2, k - 1);
    out.push(v % 2 == 1);
    assert(old(out)@ + to_bits(v as nat, k as nat) =~= old(out)@ + to_bits(
        (v / 2) as nat,
        (k - 1) as nat,
    ) + seq![v % 2 == 1]);
}

/// The values of the first `count` consecutive `k`-bit groups of `bits`.
pub fn pack_groups(bits: &Vec<bool>, k: usize, count: usize) -> (r: Vec<usize>)
    requires
        k <= 11,
        k * count <= bits@.len(),
    ensures
        r@.map_values(|x: usize| x as nat) == group_values(bits@, k as nat, count as nat),
        forall|i: int| 0 <= i < count ==> r@[i] < two_pow(k as nat),
{
    let n: usize = bits.len();
    let mut r: Vec<usize> = Vec::new();
    let mut i: usize = 0;
    while i < count
        invariant
            n == bits@.len(),
            k <= 11,
            k * count <= bits@.len(),
            i <= count,
            r@.len() == i,
            forall|t: int|
                0 <= t < i ==> r@[t] as nat == from_bits(#[trigger] bits@.subrange(k * t, k * t + k)),
            forall|t: int| 0 <= t < i ==> r@[t] < two_pow(k as nat),
        decreases count - i,
    {
        assert(k * i + k <= k * count) by (nonlinear_arith)
            requires
                i < count,
        ;
        let start: usize = k * i;
        let mut acc: usize = 0;
        let mut j: usize = 0;
        while j < k
            invariant
                n == bits@.len(),
                k <= 11,
                start + k <= n,
                j <= k,
                acc as nat == from_bits(bits@.subrange(start as int, start + j)),
                acc < two_pow(j as nat),
            decreases k - j,
        {
            proof {
                let s = bits@.subrange(start as int, start + j + 1);
                assert(s.drop_last() =~= bits@.subrange(start as int, start + j));
                lemma_from_bits_bound(s);
                lemma_two_pow_small();
                lemma_two_pow_mono(j as nat + 1, 11);
            }
            acc = acc * 2 + if bits[start + j] { 1 } else { 0 };
            j = j + 1;
        }
        r.push(acc);
        i = i + 1;
    }
    assert(r@.map_values(|x: usize| x as nat) =~= group_values(bits@, k as nat, count as nat));
    r
}

pub proof fn lemma_two_pow_mono(a: nat, b: nat)
    requires
        a <= b,
    ensures
        two_pow(a) <= two_pow(b),
    decreases b,
{
    if a < b {
        lemma_two_pow_mono(a, (b - 1) as nat);
    }
}

} // verus!
