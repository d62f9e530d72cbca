//! Bit widths and packed long arrays: entries of a fixed width stored from
//! the least significant end of each 64-bit word, with unused bits at the top.

use vstd::arithmetic::power2::{lemma_pow2_unfold, pow2};
use vstd::prelude::*;

verus! {

/// The least `b` with `2^b >= n`.
pub open spec fn ceil_log2(n: nat) -> nat
    decreases n,
{
    if n <= 1 {
        0
    } else {
        1 + ceil_log2((n + 1) / 2)
    }
}

/// Width of a stored palette index for a palette of `n` entries: enough bits
/// to tell the entries apart and at least four.
pub open spec fn storage_bits(n: nat) -> nat {
    if ceil_log2(n) < 4 {
        4
    } else {
        ceil_log2(n)
    }
}

/// Width of an entry in the network form for a palette of `n` entries: zero
/// for a single entry, the stored width up to eight bits, fifteen above that.
pub open spec fn network_bits(n: nat) -> nat {
    if n == 1 {
        0
    } else if storage_bits(n) > 8 {
        15
    } else {
        storage_bits(n)
    }
}

/// The value whose low `bits` bits are set and no others.
pub open spec fn low_mask(bits: u64) -> u64 {
    if bits >= 64 {
        0xffff_ffff_ffff_ffffu64
    } else {
        ((1u64 << bits) - 1) as u64
    }
}

/// Number of `bits`-wide entries that one long holds.
pub open spec fn entries_per_long(bits: u64) -> u64 {
    64u64 / bits
}

/// Entry number `k` of `long`, counted from the least significant end.
pub open spec fn field(long: u64, bits: u64, k: u64) -> u64 {
    (long >> ((bits * k) as u64)) & low_mask(bits)
}

/// Number of longs that hold `count` entries of width `bits`.
pub open spec fn longs_needed(count: nat, bits: u64) -> nat {
    let per = entries_per_long(bits) as nat;
    if count % per == 0 {
        count / per
    } else {
        count / per + 1
    }
}

/// Entry `p` of a packed array.
pub open spec fn packed_entry(longs: Seq<u64>, bits: u64, p: int) -> u64 {
    let per = entries_per_long(bits) as int;
    field(longs[p / per], bits, (p % per) as u64)
}

/// Entry `p` of a packed array of the older kind: each long holds its
/// entries from the high end of the bits in use, the unused bits at the top.
pub open spec fn packed_entry_high_first(longs: Seq<u64>, bits: u64, p: int) -> u64 {
    let per = entries_per_long(bits) as int;
    field(longs[p / per], bits, (per - 1 - p % per) as u64)
}

/// One long that holds `vals`, entry `i` shifted left by `bits * i`.
pub open spec fn pack_long(vals: Seq<u64>, bits: u64) -> u64
    decreases vals.len(),
{
    if vals.len() == 0 {
        0
    } else {
        pack_long(vals.drop_last(), bits) | (vals.last() << ((bits * (vals.len() - 1)) as u64))
    }
}

/// The entries of `vals` that go into long number `j`.
pub open spec fn long_slice(vals: Seq<u64>, bits: u64, j: int) -> Seq<u64> {
    let per = entries_per_long(bits) as int;
    let end = if (j + 1) * per < vals.len() {
        (j + 1) * per
    } else {
        vals.len() as int
    };
    vals.subrange(j * per, end)
}

/// The packed array that holds `vals`.
pub open spec fn pack(vals: Seq<u64>, bits: u64) -> Seq<u64> {
    Seq::new(longs_needed(vals.len(), bits), |j: int| pack_long(long_slice(vals, bits, j), bits))
}

/// The least number of bits that tell `n` values apart.
pub fn ceil_log2_of(n: usize) -> (b: usize)
    ensures
        b == ceil_log2(n as nat),
        b <= n,
{
    let mut bits: usize = 0;
    let mut rest: usize = n;
    while rest > 1
        invariant
            bits + ceil_log2(rest as nat) == ceil_log2(n as nat),
            bits + rest <= n || (rest <= 1 && bits == 0),
        decreases rest,
    {
        rest = rest / 2 + rest % 2;
        bits = bits + 1;
    }
    bits
}

/// Width of a stored palette index for a palette of `palette_size` entries.
pub fn storage_bits_of(palette_size: usize) -> (b: usize)
    ensures
        b == storage_bits(palette_size as nat),
        4 <= b,
{
    let bits = ceil_log2_of(palette_size);
    if bits < 4 {
        4
    } else {
        bits
    }
}

/// Width of an entry in the network form for a palette of `palette_size`
/// entries.
pub fn bits_needed_for_palette(palette_size: usize) -> (b: usize)
    ensures
        b == network_bits(palette_size as nat),
        b == 0 || 4 <= b <= 8 || b == 15,
        b == 0 <==> palette_size == 1,
{
    if palette_size == 1 {
        return 0;
    }
    let bits = storage_bits_of(palette_size);
    if bits > 8 {
        15
    } else {
        bits
    }
}

/// The mask that keeps the low `palette_bits` bits.
pub fn palette_mask(palette_bits: usize) -> (m: u64)
    requires
        palette_bits <= 64,
    ensures
        m == low_mask(palette_bits as u64),
{
    if palette_bits >= 64 {
        0xffff_ffff_ffff_ffffu64
    } else {
        let one: u64 = 1;
        let bits: u64 = palette_bits as u64;
        assert((1u64 << bits) >= 1) by (bit_vector)
            requires
                bits < 64,
        ;
        (one << bits) - 1
    }
}

/// Packs `values`, each `bits` wide, into longs from the least significant
/// end; the last long is filled up with zero bits.
pub fn pack_values(values: &Vec<u64>, bits: usize) -> (longs: Vec<u64>)
    requires
        1 <= bits <= 64,
    ensures
        longs@ == pack(values@, bits as u64),
{
    proof {
        lemma_per_bounds(bits as u64);
    }
    let per: usize = 64 / bits;
    let len: usize = values.len();
    assert(len % per != 0 ==> len / per < len) by (nonlinear_arith)
        requires
            per >= 1,
    ;
    let needed: usize = if len % per == 0 {
        len / per
    } else {
        len / per + 1
    };
    let mut longs: Vec<u64> = Vec::new();
    let mut j: usize = 0;
    let mut start: usize = 0;
    proof {
        if 0 < needed {
            lemma_more_longs(len as nat, per as nat, 0);
        }
    }
    while j < needed
        invariant
            1 <= bits <= 64,
            per == entries_per_long(bits as u64),
            1 <= per <= 64,
            bits * per <= 64,
            len == values@.len(),
            needed == longs_needed(len as nat, bits as u64),
            j <= needed,
            j < needed ==> start == j * per && start < len,
            longs@.len() == j,
            forall|i: int|
                0 <= i < j ==> longs@[i] == pack_long(
                    long_slice(values@, bits as u64, i),
                    bits as u64,
                ),
        decreases needed - j,
    {
        let end: usize = if len - start > per {
            start + per
        } else {
            len
        };
        let mut long: u64 = 0;
        let mut i: usize = start;
        assert(values@.subrange(start as int, start as int) =~= Seq::<u64>::empty());
        assert((j + 1) * per == j * per + per) by (nonlinear_arith);
        while i < end
            invariant
                1 <= bits <= 64,
                1 <= per <= 64,
                bits * per <= 64,
                start <= i <= end <= len,
                end - start <= per,
                len == values@.len(),
                long == pack_long(values@.subrange(start as int, i as int), bits as u64),
            decreases end - i,
        {
            let k: usize = i - start;
            assert(bits * k <= 64 - bits) by (nonlinear_arith)
                requires
                    k < per,
                    bits * per <= 64,
                    1 <= bits,
            ;
            let shift: usize = bits * k;
            proof {
                let next = values@.subrange(start as int, i + 1);
                assert(next.drop_last() =~= values@.subrange(start as int, i as int));
                assert(next.last() == values@[i as int]);
                assert((bits as u64 * (next.len() - 1)) as u64 == shift as u64);
            }
            long = long | (values[i] << shift);
            i = i + 1;
        }
        assert(values@.subrange(start as int, end as int) =~= long_slice(
            values@,
            bits as u64,
            j as int,
        ));
        longs.push(long);
        proof {
            if j + 1 < needed {
                lemma_more_longs(len as nat, per as nat, (j + 1) as nat);
            }
        }
        start = end;
        j = j + 1;
    }
    assert(longs@ =~= pack(values@, bits as u64));
    longs
}

/// Entry number `k` of `long`, for entries `bits` wide.
pub fn field_of(long: u64, bits: usize, k: usize) -> (v: u64)
    requires
        1 <= bits <= 64,
        k < entries_per_long(bits as u64),
    ensures
        v == field(long, bits as u64, k as u64),
        v <= low_mask(bits as u64),
{
    proof {
        lemma_per_bounds(bits as u64);
    }
    let per: usize = 64 / bits;
    assert(bits * k <= 64 - bits) by (nonlinear_arith)
        requires
            k < per,
            bits * per <= 64,
            1 <= bits,
    ;
    let shift: usize = bits * k;
    let mask = palette_mask(bits);
    let shifted: u64 = long >> shift;
    assert(shifted & mask <= mask) by (bit_vector);
    shifted & mask
}

/// `ceil_log2(n)` is the least exponent whose power of two reaches `n`.
pub proof fn lemma_ceil_log2_bounds(n: nat)
    ensures
        pow2(ceil_log2(n)) >= n,
        ceil_log2(n) > 0 ==> pow2((ceil_log2(n) - 1) as nat) < n,
    decreases n,
{
    if n <= 1 {
        assert(pow2(0) == 1) by {
            vstd::arithmetic::power2::lemma2_to64();
        }
    } else {
        let m = (n + 1) / 2;
        lemma_ceil_log2_bounds(m);
        lemma_pow2_unfold(ceil_log2(n));
        if ceil_log2(m) > 0 {
            lemma_pow2_unfold(ceil_log2(m));
        } else {
            assert(pow2(0) == 1) by {
                vstd::arithmetic::power2::lemma2_to64();
            }
        }
    }
}

/// A count that a `k`-bit number can reach needs at most `k` bits.
pub proof fn lemma_ceil_log2_le(n: nat, k: nat)
    requires
        n <= pow2(k),
    ensures
        ceil_log2(n) <= k,
    decreases k,
{
    if n > 1 {
        if k == 0 {
            assert(pow2(0) == 1) by {
                vstd::arithmetic::power2::lemma2_to64();
            }
        } else {
            lemma_pow2_unfold(k);
            lemma_ceil_log2_le((n + 1) / 2, (k - 1) as nat);
        }
    }
}

/// In one packed long every entry reads back as it was written, provided
/// each entry fits its width and the entries fit the long.
pub proof fn lemma_pack_long_fields(vals: Seq<u64>, bits: u64)
    requires
        1 <= bits < 64,
        vals.len() * bits <= 64,
        forall|i: int| 0 <= i < vals.len() ==> vals[i] <= low_mask(bits),
    ensures
        forall|k: int|
            0 <= k < vals.len() ==> #[trigger] field(pack_long(vals, bits), bits, k as u64)
                == vals[k],
        vals.len() * bits < 64 ==> pack_long(vals, bits) >> ((vals.len() * bits) as u64) == 0,
    decreases vals.len(),
{
    let n = vals.len();
    if n == 0 {
        assert(0u64 >> 0u64 == 0) by (bit_vector);
    } else {
        let front = vals.drop_last();
        let last = vals.last();
        assert((n - 1) * bits + bits == n * bits) by (nonlinear_arith);
        assert((n - 1) * bits >= 0) by (nonlinear_arith)
            requires
                n >= 1,
                bits >= 1,
        ;
        lemma_pack_long_fields(front, bits);
        let acc = pack_long(front, bits);
        let s = ((n - 1) * bits) as u64;
        let whole = pack_long(vals, bits);
        assert(bits * (n - 1) == (n - 1) * bits) by (nonlinear_arith);
        assert(whole == acc | (last << s));
        let mask = low_mask(bits);
        assert(mask == ((1u64 << bits) - 1) as u64);
        assert forall|k: int| 0 <= k < n implies #[trigger] field(whole, bits, k as u64)
            == vals[k] by {
            if k == n - 1 {
                assert(bits * (k as u64) == s) by (nonlinear_arith)
                    requires
                        k == n - 1,
                        s == (n - 1) * bits,
                ;
                assert(((acc | (last << s)) >> s) & mask == last) by (bit_vector)
                    requires
                        1 <= bits < 64,
                        s <= 64 - bits,
                        acc >> s == 0,
                        mask == ((1u64 << bits) - 1) as u64,
                        last <= mask,
                ;
            } else {
                let t = (bits * (k as u64)) as u64;
                assert(bits * (k as u64) + bits <= (n - 1) * bits) by (nonlinear_arith)
                    requires
                        0 <= k < n - 1,
                        bits >= 1,
                ;
                assert(field(acc, bits, k as u64) == front[k]);
                assert(((acc | (last << s)) >> t) & mask == (acc >> t) & mask) by (bit_vector)
                    requires
                        1 <= bits < 64,
                        s <= 64 - bits,
                        t + bits <= s,
                        mask == ((1u64 << bits) - 1) as u64,
                ;
            }
        }
        if n * bits < 64 {
            let top = (n * bits) as u64;
            assert((acc | (last << s)) >> top == 0) by (bit_vector)
                requires
                    1 <= bits < 64,
                    top == s + bits,
                    top < 64,
                    acc >> s == 0,
                    mask == ((1u64 << bits) - 1) as u64,
                    last <= mask,
            ;
        }
    }
}

/// Every entry of a packed array reads back as it was written, provided each
/// entry fits its width.
pub proof fn lemma_packed_entry(vals: Seq<u64>, bits: u64, p: int)
    requires
        1 <= bits < 64,
        0 <= p < vals.len(),
        forall|i: int| 0 <= i < vals.len() ==> vals[i] <= low_mask(bits),
    ensures
        0 <= p / (entries_per_long(bits) as int) < pack(vals, bits).len(),
        packed_entry(pack(vals, bits), bits, p) == vals[p],
{
    lemma_per_bounds(bits);
    let per = entries_per_long(bits) as int;
    let len = vals.len() as int;
    let j = p / per;
    let k = p % per;
    assert(p == j * per + k && 0 <= k < per && 0 <= j) by (nonlinear_arith)
        requires
            j == p / per,
            k == p % per,
            per >= 1,
            p >= 0,
    ;
    assert(len == (len / per) * per + len % per && 0 <= len % per < per) by (nonlinear_arith)
        requires
            per >= 1,
            len >= 0,
    ;
    assert(j < longs_needed(vals.len(), bits)) by (nonlinear_arith)
        requires
            p == j * per + k,
            0 <= k < per,
            p < len,
            len == (len / per) * per + len % per,
            0 <= len % per < per,
            longs_needed(vals.len(), bits) == (if len % per == 0 {
                len / per
            } else {
                len / per + 1
            }),
    ;
    let slice = long_slice(vals, bits, j);
    assert((j + 1) * per == j * per + per) by (nonlinear_arith);
    assert(slice.len() <= per);
    assert(slice.len() * bits <= 64) by (nonlinear_arith)
        requires
            slice.len() <= per,
            bits * per <= 64,
            bits >= 1,
    ;
    assert(slice[k] == vals[p]);
    lemma_pack_long_fields(slice, bits);
    assert(field(pack_long(slice, bits), bits, k as u64) == slice[k]);
}

proof fn lemma_per_bounds(bits: u64)
    requires
        1 <= bits <= 64,
    ensures
        1 <= entries_per_long(bits) <= 64,
        bits * entries_per_long(bits) <= 64,
{
    let per = entries_per_long(bits);
    assert(1 <= 64u64 / bits <= 64 && bits * (64u64 / bits) <= 64) by (nonlinear_arith)
        requires
            1 <= bits <= 64,
    ;
}

proof fn lemma_more_longs(len: nat, per: nat, j: nat)
    requires
        per >= 1,
        j < (if len % per == 0 {
            len / per
        } else {
            len / per + 1
        }),
    ensures
        j * per < len,
{
    assert(len == (len / per) * per + len % per && 0 <= len % per < per) by (nonlinear_arith)
        requires
            per >= 1,
    ;
    assert(j * per < len) by (nonlinear_arith)
        requires
            per >= 1,
            len == (len / per) * per + len % per,
            0 <= len % per < per,
            j < len / per || (j == len / per && len % per != 0),
    ;
}

} // verus!
