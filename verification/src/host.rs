//! Host-side reference primitives: sequential sum, prefix scans and
//! scatters over `u32` arrays, with exact contracts. These are the
//! arithmetic ground truth that the device model is held to.

use vstd::prelude::*;
use vstd::arithmetic::div_mod::{
    lemma_add_mod_noop, lemma_add_mod_noop_right, lemma_mod_pos_bound, lemma_small_mod,
};
use vstd::wrapping::u32_specs;

verus! {

/// Exact (unbounded) sum of a sequence of `u32` values.
pub open spec fn sum_int(s: Seq<u32>) -> int
    decreases s.len(),
{
    if s.len() == 0 {
        0
    } else {
        sum_int(s.drop_last()) + s.last()
    }
}

/// Sum reduced modulo 2^32: the value a wrapping accumulation yields.
pub open spec fn wsum(s: Seq<u32>) -> u32 {
    (sum_int(s) % 0x1_0000_0000) as u32
}

pub proof fn lemma_sum_int_nonneg(s: Seq<u32>)
    ensures
        sum_int(s) >= 0,
    decreases s.len(),
{
    if s.len() > 0 {
        lemma_sum_int_nonneg(s.drop_last());
    }
}

/// Extending a prefix by one element adds that element to the exact sum.
pub proof fn lemma_sum_int_take_step(s: Seq<u32>, i: int)
    requires
        0 <= i < s.len(),
    ensures
        sum_int(s.take(i + 1)) == sum_int(s.take(i)) + s[i],
{
    assert(s.take(i + 1).drop_last() =~= s.take(i));
    assert(s.take(i + 1).last() == s[i]);
}

/// Wrapping addition agrees with addition modulo 2^32.
pub proof fn lemma_wrapping_add_mod(a: int, b: u32)
    requires
        a >= 0,
    ensures
        u32_specs::wrapping_add((a % 0x1_0000_0000) as u32, b) == ((a + b) % 0x1_0000_0000) as u32,
{
    let m = 0x1_0000_0000int;
    lemma_mod_pos_bound(a, m);
    let r = a % m;
    lemma_add_mod_noop_right(b as int, a, m);
    assert((b + a % m) % m == (b + a) % m);
    if r + b > u32::MAX {
        assert(m <= r + b < 2 * m);
        assert((r + b) % m == r + b - m) by {
            lemma_small_mod((r + b - m) as nat, m as nat);
            vstd::arithmetic::div_mod::lemma_mod_sub_multiples_vanish(r + b, m);
        }
    } else {
        lemma_small_mod((r + b) as nat, m as nat);
    }
}

/// Extending a prefix by one element wraps that element onto the wrapped sum.
pub proof fn lemma_wsum_step(s: Seq<u32>, i: int)
    requires
        0 <= i < s.len(),
    ensures
        wsum(s.take(i + 1)) == u32_specs::wrapping_add(wsum(s.take(i)), s[i]),
{
    lemma_sum_int_take_step(s, i);
    lemma_sum_int_nonneg(s.take(i));
    lemma_wrapping_add_mod(sum_int(s.take(i)), s[i]);
}

/// The exclusive prefix scan: entry `i` is the wrapped sum of the
/// elements strictly before `i`.
pub open spec fn exclusive_scan_spec(s: Seq<u32>) -> Seq<u32> {
    Seq::new(s.len(), |i: int| wsum(s.take(i)))
}

/// The inclusive prefix scan: entry `i` is the wrapped sum of the
/// elements up to and including `i`.
pub open spec fn inclusive_scan_spec(s: Seq<u32>) -> Seq<u32> {
    Seq::new(s.len(), |i: int| wsum(s.take(i + 1)))
}

/// Law: an exclusive scan of a non-empty input starts at zero.
pub proof fn lemma_exclusive_scan_first(s: Seq<u32>)
    requires
        s.len() > 0,
    ensures
        exclusive_scan_spec(s)[0] == 0,
{
    assert(s.take(0) =~= Seq::<u32>::empty());
}

/// Law: each later entry of an exclusive scan is the previous entry
/// plus the previous input element, wrapping on overflow.
pub proof fn lemma_exclusive_scan_step(s: Seq<u32>, i: int)
    requires
        0 < i < s.len(),
    ensures
        exclusive_scan_spec(s)[i] == u32_specs::wrapping_add(
            exclusive_scan_spec(s)[i - 1],
            s[i - 1],
        ),
{
    lemma_wsum_step(s, i - 1);
}

/// Law: each entry of the inclusive scan is the matching exclusive-scan
/// entry plus the input element at that position, wrapping on overflow.
pub proof fn lemma_inclusive_from_exclusive(s: Seq<u32>, i: int)
    requires
        0 <= i < s.len(),
    ensures
        inclusive_scan_spec(s)[i] == u32_specs::wrapping_add(exclusive_scan_spec(s)[i], s[i]),
{
    lemma_wsum_step(s, i);
}

/// Concatenation splits the exact sum.
pub proof fn lemma_sum_int_concat(a: Seq<u32>, b: Seq<u32>)
    ensures
        sum_int(a + b) == sum_int(a) + sum_int(b),
    decreases b.len(),
{
    if b.len() == 0 {
        assert(a + b =~= a);
    } else {
        lemma_sum_int_concat(a, b.drop_last());
        assert((a + b).drop_last() =~= a + b.drop_last());
        assert((a + b).last() == b.last());
    }
}

/// The per-workgroup partial sums: one wrapped sum for each
/// `group`-sized chunk of `s`, in order.
pub open spec fn chunk_sums(s: Seq<u32>, group: int) -> Seq<u32>
    decreases s.len(),
{
    if group < 1 || s.len() == 0 {
        Seq::empty()
    } else if s.len() <= group {
        seq![wsum(s)]
    } else {
        seq![wsum(s.take(group))] + chunk_sums(s.skip(group), group)
    }
}

/// Law: summing each workgroup-sized chunk and then summing the
/// partials yields the flat wrapped sum, whatever the chunk size: the
/// reduction's result does not depend on how the input is partitioned
/// into workgroups.
pub proof fn lemma_chunk_sums_total(s: Seq<u32>, group: int)
    requires
        group >= 1,
    ensures
        wsum(chunk_sums(s, group)) == wsum(s),
    decreases s.len(),
{
    let m = 0x1_0000_0000int;
    if s.len() == 0 {
        assert(chunk_sums(s, group) =~= Seq::<u32>::empty());
    } else if s.len() <= group {
        let c = seq![wsum(s)];
        assert(c.len() == 1 && c.last() == wsum(s));
        assert(c.drop_last() =~= Seq::<u32>::empty());
        assert(sum_int(Seq::<u32>::empty()) == 0);
        assert(sum_int(c) == sum_int(c.drop_last()) + c.last());
        assert(sum_int(c) == wsum(s));
        lemma_sum_int_nonneg(s);
        lemma_mod_pos_bound(sum_int(s), m);
        lemma_small_mod(wsum(s) as nat, m as nat);
    } else {
        let head = s.take(group);
        let tail = s.skip(group);
        let rest = chunk_sums(tail, group);
        lemma_chunk_sums_total(tail, group);
        let hc = seq![wsum(head)];
        assert(chunk_sums(s, group) == hc + rest);
        lemma_sum_int_concat(hc, rest);
        assert(hc.len() == 1 && hc.last() == wsum(head));
        assert(hc.drop_last() =~= Seq::<u32>::empty());
        assert(sum_int(Seq::<u32>::empty()) == 0);
        assert(sum_int(hc) == sum_int(hc.drop_last()) + hc.last());
        assert(sum_int(hc) == wsum(head));
        let h = sum_int(head);
        let r = sum_int(rest);
        let t = sum_int(tail);
        lemma_sum_int_nonneg(head);
        lemma_sum_int_nonneg(rest);
        lemma_sum_int_nonneg(tail);
        lemma_mod_pos_bound(h, m);
        lemma_mod_pos_bound(r, m);
        lemma_mod_pos_bound(t, m);
        assert(sum_int(hc + rest) == (h % m) + r);
        lemma_add_mod_noop_right(h % m, r, m);
        lemma_add_mod_noop(h, r, m);
        lemma_small_mod((h % m) as nat, m as nat);
        assert(((h % m) + r) % m == (h + r) % m);
        assert(r % m == t % m);
        lemma_add_mod_noop_right(h, r, m);
        lemma_add_mod_noop_right(h, t, m);
        assert((h + r) % m == (h + t) % m);
        lemma_sum_int_concat(head, tail);
        assert(head + tail =~= s);
        assert(h + t == sum_int(s));
    }
}

/// Peels the first chunk off the suffix of `s` that starts at `c`.
pub proof fn lemma_chunk_sums_peel(s: Seq<u32>, c: int, group: int)
    requires
        0 <= c < s.len(),
        group >= 1,
    ensures
        ({
            let step = if s.len() - c >= group {
                group
            } else {
                s.len() - c
            };
            chunk_sums(s.skip(c), group) == seq![wsum(s.subrange(c, c + step))] + chunk_sums(
                s.skip(c + step),
                group,
            )
        }),
{
    let rem = s.skip(c);
    if s.len() - c > group {
        assert(rem.take(group) =~= s.subrange(c, c + group));
        assert(rem.skip(group) =~= s.skip(c + group));
    } else {
        let step = s.len() - c;
        assert(s.subrange(c, c + step) =~= rem);
        assert(s.skip(c + step) =~= Seq::<u32>::empty());
        assert(chunk_sums(Seq::<u32>::empty(), group) =~= Seq::<u32>::empty());
        assert(seq![wsum(rem)] + Seq::<u32>::empty() =~= seq![wsum(rem)]);
    }
}

/// Element-wise remainder: entry `i` becomes `s[i] % m`.
pub open spec fn mod_seq(s: Seq<u32>, m: u32) -> Seq<u32> {
    Seq::new(s.len(), |i: int| (s[i] % m) as u32)
}

/// Some entry of `idx` at position `from` or later names the index `j`.
pub open spec fn hits_from(idx: Seq<u32>, from: int, j: int) -> bool {
    exists|k: int| from <= k < idx.len() && idx[k] as int == j
}

/// Some entry of `idx` names the index `j`.
pub open spec fn hits(idx: Seq<u32>, j: int) -> bool {
    hits_from(idx, 0, j)
}

/// The result of the constant scatter once only the iterations at
/// position `from` and later have run: because every write stores the
/// same `value`, the order of those writes does not matter.
pub open spec fn scatter_from(out: Seq<u32>, idx: Seq<u32>, value: u32, from: int) -> Seq<u32> {
    Seq::new(
        out.len(),
        |j: int|
            if hits_from(idx, from, j) {
                value
            } else {
                out[j]
            },
    )
}

/// Every position named in `idx` holds `value`; the rest keep their
/// previous contents.
pub open spec fn scatter_spec(out: Seq<u32>, idx: Seq<u32>, value: u32) -> Seq<u32> {
    scatter_from(out, idx, value, 0)
}

/// The state of the descending non-zero scatter once iterations `from`
/// up to the end have run: position `idx[k]` receives `inp[k]` when
/// `inp[k] > 0`, and on a collision the write with the smallest `k`
/// wins, because the loop visits `k` in descending order.
pub open spec fn scatter_non_zero_from(
    out: Seq<u32>,
    idx: Seq<u32>,
    inp: Seq<u32>,
    from: int,
) -> Seq<u32>
    decreases inp.len() - from,
{
    if from < 0 || from >= inp.len() {
        out
    } else {
        let rest = scatter_non_zero_from(out, idx, inp, from + 1);
        if inp[from] > 0 {
            rest.update(idx[from] as int, inp[from])
        } else {
            rest
        }
    }
}

/// The full non-zero scatter, all iterations run.
pub open spec fn scatter_non_zero_spec(out: Seq<u32>, idx: Seq<u32>, inp: Seq<u32>) -> Seq<u32> {
    scatter_non_zero_from(out, idx, inp, 0)
}

/// The two scatters agree on the suffix of iterations from `from` on
/// when every scattered value is the constant.
proof fn lemma_scatter_agreement_from(
    out: Seq<u32>,
    idx: Seq<u32>,
    inp: Seq<u32>,
    value: u32,
    from: int,
)
    requires
        value >= 1,
        inp.len() == idx.len(),
        forall|k: int| 0 <= k < inp.len() ==> inp[k] == value,
        forall|k: int| 0 <= k < idx.len() ==> idx[k] < out.len(),
        0 <= from <= inp.len(),
    ensures
        scatter_non_zero_from(out, idx, inp, from) == scatter_from(out, idx, value, from),
    decreases inp.len() - from,
{
    if from == inp.len() {
        assert(scatter_from(out, idx, value, from) =~= out);
    } else {
        lemma_scatter_agreement_from(out, idx, inp, value, from + 1);
        let prev = scatter_from(out, idx, value, from + 1);
        let pos = idx[from] as int;
        let goal = scatter_from(out, idx, value, from);
        assert forall|j: int| 0 <= j < out.len() implies goal[j] == prev.update(pos, value)[j] by {
            if j == pos {
                assert(hits_from(idx, from, j));
            } else {
                if hits_from(idx, from, j) {
                    let k = choose|k: int| from <= k < idx.len() && idx[k] as int == j;
                    assert(k != from);
                    assert(hits_from(idx, from + 1, j));
                }
                if hits_from(idx, from + 1, j) {
                    let k = choose|k: int| from + 1 <= k < idx.len() && idx[k] as int == j;
                    assert(from <= k < idx.len() && idx[k] as int == j);
                    assert(hits_from(idx, from, j));
                }
            }
        };
        assert(scatter_non_zero_from(out, idx, inp, from) == prev.update(pos, value));
        assert(goal =~= prev.update(pos, value));
    }
}

/// Law: when every value handed to the non-zero scatter is one and the
/// same positive constant, its order-defined result coincides with the
/// order-free constant scatter — the one situation in which the two
/// operations are interchangeable.
pub proof fn lemma_scatter_agreement(out: Seq<u32>, idx: Seq<u32>, inp: Seq<u32>, value: u32)
    requires
        value >= 1,
        inp.len() == idx.len(),
        forall|k: int| 0 <= k < inp.len() ==> inp[k] == value,
        forall|k: int| 0 <= k < idx.len() ==> idx[k] < out.len(),
    ensures
        scatter_non_zero_spec(out, idx, inp) == scatter_spec(out, idx, value),
{
    lemma_scatter_agreement_from(out, idx, inp, value, 0);
}

/// Law: scattering a constant twice with the same indices and value
/// yields the same array as scattering it once.
pub proof fn lemma_scatter_idempotent(out: Seq<u32>, idx: Seq<u32>, value: u32)
    ensures
        scatter_spec(scatter_spec(out, idx, value), idx, value) == scatter_spec(out, idx, value),
{
    let once = scatter_spec(out, idx, value);
    assert forall|j: int| 0 <= j < once.len() implies scatter_spec(once, idx, value)[j] == once[j]
        by {
        if !hits(idx, j) {
            assert(scatter_spec(once, idx, value)[j] == once[j]);
        }
    };
    assert(scatter_spec(once, idx, value) =~= once);
}

/// Arithmetic sum of the input, wrapping on overflow.
pub fn sum(input: &[u32]) -> (r: u32)
    ensures
        r == wsum(input@),
{
    let mut acc: u32 = 0;
    let n = input.len();
    let mut i: usize = 0;
    proof {
        assert(input@.take(0) =~= Seq::<u32>::empty());
    }
    while i < n
        invariant
            0 <= i <= n,
            n == input@.len(),
            acc == wsum(input@.take(i as int)),
        decreases n - i,
    {
        proof {
            lemma_wsum_step(input@, i as int);
        }
        acc = acc.wrapping_add(input[i]);
        i = i + 1;
    }
    proof {
        assert(input@.take(n as int) =~= input@);
    }
    acc
}

/// Running total including the current element, wrapping on overflow.
pub fn inclusive_scan(input: &[u32]) -> (r: Vec<u32>)
    ensures
        r@ == inclusive_scan_spec(input@),
{
    let mut out: Vec<u32> = Vec::new();
    let mut acc: u32 = 0;
    let n = input.len();
    let mut i: usize = 0;
    proof {
        assert(input@.take(0) =~= Seq::<u32>::empty());
    }
    while i < n
        invariant
            0 <= i <= n,
            n == input@.len(),
            acc == wsum(input@.take(i as int)),
            out@.len() == i,
            forall|j: int| 0 <= j < i ==> out@[j] == wsum(input@.take(j + 1)),
        decreases n - i,
    {
        proof {
            lemma_wsum_step(input@, i as int);
        }
        acc = acc.wrapping_add(input[i]);
        out.push(acc);
        i = i + 1;
    }
    proof {
        assert(out@ =~= inclusive_scan_spec(input@));
    }
    out
}

/// Running total excluding the current element, wrapping on overflow;
/// the first entry is zero.
pub fn exclusive_scan(input: &[u32]) -> (r: Vec<u32>)
    ensures
        r@ == exclusive_scan_spec(input@),
{
    let mut out: Vec<u32> = Vec::new();
    let mut acc: u32 = 0;
    let n = input.len();
    let mut i: usize = 0;
    proof {
        assert(input@.take(0) =~= Seq::<u32>::empty());
    }
    while i < n
        invariant
            0 <= i <= n,
            n == input@.len(),
            acc == wsum(input@.take(i as int)),
            out@.len() == i,
            forall|j: int| 0 <= j < i ==> out@[j] == wsum(input@.take(j)),
        decreases n - i,
    {
        out.push(acc);
        proof {
            lemma_wsum_step(input@, i as int);
        }
        acc = acc.wrapping_add(input[i]);
        i = i + 1;
    }
    proof {
        assert(out@ =~= exclusive_scan_spec(input@));
    }
    out
}

/// Writes `value` at `output[indices[i]]` for every `i`, visiting `i`
/// in descending order; with a constant value the visiting order does
/// not show in the result.
pub fn scatter_with_value(output: &mut [u32], indices: &[u32], value: u32)
    requires
        forall|k: int| 0 <= k < indices@.len() ==> indices@[k] < old(output)@.len(),
    ensures
        final(output)@ == scatter_spec(old(output)@, indices@, value),
{
    let m = indices.len();
    let mut i: usize = m;
    proof {
        assert(output@ =~= scatter_from(old(output)@, indices@, value, m as int));
    }
    while i > 0
        invariant
            0 <= i <= m,
            m == indices@.len(),
            output@.len() == old(output)@.len(),
            forall|k: int| 0 <= k < indices@.len() ==> indices@[k] < old(output)@.len(),
            output@ == scatter_from(old(output)@, indices@, value, i as int),
        decreases i,
    {
        i = i - 1;
        let ghost prev = output@;
        let pos = indices[i] as usize;
        output[pos] = value;
        proof {
            let goal = scatter_from(old(output)@, indices@, value, i as int);
            assert forall|j: int| 0 <= j < prev.len() implies goal[j] == prev.update(
                pos as int,
                value,
            )[j] by {
                if j == pos as int {
                    assert(indices@[i as int] as int == j);
                    assert(hits_from(indices@, i as int, j));
                } else {
                    if hits_from(indices@, i as int, j) {
                        let k = choose|k: int|
                            i as int <= k < indices@.len() && indices@[k] as int == j;
                        assert(k != i as int);
                        assert(hits_from(indices@, i as int + 1, j));
                    }
                    if hits_from(indices@, i as int + 1, j) {
                        let k = choose|k: int|
                            i as int + 1 <= k < indices@.len() && indices@[k] as int == j;
                        assert(i as int <= k < indices@.len() && indices@[k] as int == j);
                        assert(hits_from(indices@, i as int, j));
                    }
                }
            };
            assert(output@ =~= goal);
        }
    }
}

/// Writes `input[i]` at `output[indices[i]]` for every `i` whose
/// `input[i]` is positive, visiting `i` in descending order, so that on
/// a collision the write with the smallest `i` wins.
pub fn scatter_if_non_zero(output: &mut [u32], indices: &[u32], input: &[u32])
    requires
        input@.len() <= indices@.len(),
        forall|k: int| 0 <= k < input@.len() && input@[k] > 0 ==> indices@[k] < old(output)@.len(),
    ensures
        final(output)@ == scatter_non_zero_spec(old(output)@, indices@, input@),
{
    let n = input.len();
    let mut i: usize = n;
    while i > 0
        invariant
            0 <= i <= n,
            n == input@.len(),
            input@.len() <= indices@.len(),
            output@.len() == old(output)@.len(),
            forall|k: int| 0 <= k < input@.len() && input@[k] > 0 ==> indices@[k] < old(
                output,
            )@.len(),
            output@ == scatter_non_zero_from(old(output)@, indices@, input@, i as int),
        decreases i,
    {
        i = i - 1;
        let value = input[i];
        if value > 0 {
            let pos = indices[i] as usize;
            output[pos] = value;
        }
    }
}

/// A fresh array of `size` zeroes.
pub fn zeroed_array_of_size(size: u32) -> (r: Vec<u32>)
    ensures
        r@ == Seq::new(size as nat, |i: int| 0u32),
{
    let mut out: Vec<u32> = Vec::new();
    let mut i: u32 = 0;
    while i < size
        invariant
            0 <= i <= size,
            out@ =~= Seq::new(i as nat, |j: int| 0u32),
        decreases size - i,
    {
        out.push(0);
        proof {
            assert(out@ =~= Seq::new((i + 1) as nat, |j: int| 0u32));
        }
        i = i + 1;
    }
    out
}

/// An array of `len` unit run markers, each entry one.
pub fn ascending_values_of_len(len: u32) -> (r: Vec<u32>)
    ensures
        r@ == Seq::new(len as nat, |i: int| 1u32),
{
    let mut out: Vec<u32> = Vec::new();
    let mut i: u32 = 0;
    while i < len
        invariant
            0 <= i <= len,
            out@ =~= Seq::new(i as nat, |j: int| 1u32),
        decreases len - i,
    {
        out.push(1);
        proof {
            assert(out@ =~= Seq::new((i + 1) as nat, |j: int| 1u32));
        }
        i = i + 1;
    }
    out
}

} // verus!
