//! Fixed-width unsigned integers packed into 64-bit words, low bits first,
//! a value that straddles a word boundary continuing in the next word.
use vstd::prelude::*;
use vstd::arithmetic::div_mod::lemma_fundamental_div_mod_converse;
use vstd::arithmetic::mul::lemma_mul_inequality;

verus! {

/// Bit `k` (counted from the least significant bit) of `x`.
pub open spec fn bit_at(x: u64, k: nat) -> bool {
    (x >> (k as u64)) & 1u64 == 1u64
}

/// Bit `j` of a word sequence read as one little-endian bit stream.
pub open spec fn word_bit(words: Seq<u64>, j: nat) -> bool {
    bit_at(words[(j / 64) as int], j % 64)
}

/// Bit `j` of the stream that holds `values` at `w` bits each.
pub open spec fn packed_bit(values: Seq<u32>, w: nat, j: nat) -> bool {
    &&& j < values.len() * w
    &&& bit_at(values[(j / w) as int] as u64, j % w)
}

/// Number of 64-bit words needed for `n` values of `w` bits.
pub open spec fn words_needed(n: nat, w: nat) -> nat {
    (n * w + 63) / 64
}

/// `words` is exactly the packed stream of `values` at width `w`: every bit of
/// every word is the corresponding bit of the stream, padding bits are zero.
pub open spec fn is_packing(values: Seq<u32>, w: nat, words: Seq<u64>) -> bool {
    &&& words.len() == words_needed(values.len(), w)
    &&& forall|j: nat| j < 64 * words.len() ==> #[trigger] word_bit(words, j) == packed_bit(values, w, j)
}

/// `r` is the `w`-bit field of the stream `words` that starts at bit `start`.
pub open spec fn is_field(words: Seq<u64>, start: nat, w: nat, r: u32) -> bool {
    &&& (r as u64) >> (w as u64) == 0
    &&& forall|k: nat| k < w ==> #[trigger] bit_at(r as u64, k) == word_bit(words, start + k)
}

/// Bit length of `n`: the position of its highest set bit plus one, 0 for 0.
pub open spec fn bit_len(n: nat) -> nat
    decreases n,
{
    if n == 0 {
        0
    } else {
        1 + bit_len(n / 2)
    }
}

/// Bits per index for a palette of `size` entries, at least one: at least
/// two, and enough for the largest index.
pub open spec fn bits_for_palette(size: nat) -> nat
    recommends
        size >= 1,
{
    if bit_len((size - 1) as nat) < 2 {
        2
    } else {
        bit_len((size - 1) as nat)
    }
}

proof fn lemma_bit_len_bound(n: nat, k: nat)
    requires
        n < vstd::arithmetic::power2::pow2(k),
    ensures
        bit_len(n) <= k,
    decreases k,
{
    if n > 0 {
        if k == 0 {
            vstd::arithmetic::power2::lemma2_to64();
        } else {
            vstd::arithmetic::power2::lemma_pow2_unfold(k);
            lemma_bit_len_bound(n / 2, (k - 1) as nat);
        }
    }
}

/// Bits needed per palette index (see `bits_for_palette`).
pub fn bits_required(palette_size: u32) -> (r: u32)
    requires
        palette_size >= 1,
    ensures
        r as nat == bits_for_palette(palette_size as nat),
        2 <= r <= 32,
{
    let mut v: u32 = palette_size - 1;
    let mut n: u32 = 0;
    proof {
        vstd::arithmetic::power2::lemma2_to64();
        lemma_bit_len_bound(v as nat, 32);
    }
    while v > 0
        invariant
            bit_len(v as nat) + n == bit_len((palette_size - 1) as nat),
            bit_len((palette_size - 1) as nat) <= 32,
        decreases v,
    {
        v = v / 2;
        n = n + 1;
    }
    if n < 2 {
        2
    } else {
        n
    }
}

proof fn lemma_mask_bits(x: u64, w: u64, k: u64)
    by (bit_vector)
    requires
        1 <= w <= 32,
        k < w,
    ensures
        (((x & (((1u64 << w) - 1) as u64)) >> k) & 1) == ((x >> k) & 1),
        (x & (((1u64 << w) - 1) as u64)) >> w == 0,
{
}

proof fn lemma_read_one_word(x: u64, off: u64, w: u64, k: u64)
    by (bit_vector)
    requires
        1 <= w <= 32,
        off + w <= 64,
        k < w,
    ensures
        ((((x >> off) & (((1u64 << w) - 1) as u64)) >> k) & 1) == ((x >> ((off + k) as u64)) & 1),
        ((x >> off) & (((1u64 << w) - 1) as u64)) >> w == 0,
        ((x >> off) & (((1u64 << w) - 1) as u64)) >> 32 == 0,
{
}

proof fn lemma_read_two_words(a: u64, b: u64, off: u64, w: u64, k: u64)
    by (bit_vector)
    requires
        1 <= w <= 32,
        off < 64,
        off + w > 64,
        k < w,
    ensures
        off + k < 64 ==> (((((a >> off) | (b << ((64 - off) as u64))) & (((1u64 << w) - 1) as u64)) >> k) & 1)
            == ((a >> ((off + k) as u64)) & 1),
        off + k >= 64 ==> (((((a >> off) | (b << ((64 - off) as u64))) & (((1u64 << w) - 1) as u64)) >> k) & 1)
            == ((b >> ((off + k - 64) as u64)) & 1),
        (((a >> off) | (b << ((64 - off) as u64))) & (((1u64 << w) - 1) as u64)) >> w == 0,
        (((a >> off) | (b << ((64 - off) as u64))) & (((1u64 << w) - 1) as u64)) >> 32 == 0,
{
}

proof fn lemma_low_u32(c: u64)
    requires
        c >> 32 == 0,
    ensures
        (c as u32) as u64 == c,
{
    assert(c >> 32 == 0 ==> c < 0x1_0000_0000) by (bit_vector);
}

/// Reads the `bits`-wide value number `index` from a packed word stream.
pub fn get_at(index: usize, bits: u32, long_array: &Vec<u64>) -> (r: u32)
    requires
        1 <= bits <= 32,
        (index + 1) * bits <= 64 * long_array.len(),
        (index + 1) * bits <= usize::MAX,
    ensures
        is_field(long_array@, (index * bits) as nat, bits as nat, r),
{
    let w: usize = bits as usize;
    proof {
        assert((index + 1) * w == index * w + w) by (nonlinear_arith);
    }
    let start: usize = index * w;
    let sw: usize = start / 64;
    let off: u64 = (start % 64) as u64;
    let wb: u64 = bits as u64;
    proof {
        assert(1u64 << wb >= 1) by (bit_vector)
            requires
                1 <= wb <= 32,
        ;
    }
    let mask: u64 = (1u64 << wb) - 1;
    if start % 64 + w <= 64 {
        let x = long_array[sw];
        let c: u64 = (x >> off) & mask;
        proof {
            lemma_read_one_word(x, off, wb, 0);
            lemma_low_u32(c);
            assert forall|k: nat| k < w implies #[trigger] bit_at(c as u32 as u64, k) == word_bit(long_array@, start as nat + k) by {
                lemma_read_one_word(x, off, wb, k as u64);
                assert((start + k) / 64 == sw);
                assert((start + k) % 64 == off + k);
            }
        }
        c as u32
    } else {
        assert(sw + 1 < long_array.len());
        let a = long_array[sw];
        let b = long_array[sw + 1];
        let c: u64 = ((a >> off) | (b << (64 - off))) & mask;
        proof {
            lemma_read_two_words(a, b, off, wb, 0);
            lemma_low_u32(c);
            assert forall|k: nat| k < w implies #[trigger] bit_at(c as u32 as u64, k) == word_bit(long_array@, start as nat + k) by {
                lemma_read_two_words(a, b, off, wb, k as u64);
                if off + k < 64 {
                    assert((start + k) / 64 == sw);
                    assert((start + k) % 64 == off + k);
                } else {
                    assert((start + k) / 64 == sw + 1);
                    assert((start + k) % 64 == off + k - 64);
                }
            }
        }
        c as u32
    }
}

proof fn lemma_write_one_word(old: u64, v: u64, off: u64, w: u64, t: u64)
    by (bit_vector)
    requires
        1 <= w <= 32,
        off + w <= 64,
        v >> w == 0,
        old >> off == 0,
        t < 64,
    ensures
        t < off ==> (((old | (v << off)) >> t) & 1) == ((old >> t) & 1),
        off <= t && t < off + w ==> (((old | (v << off)) >> t) & 1) == ((v >> ((t - off) as u64)) & 1),
        off + w < 64 ==> (old | (v << off)) >> ((off + w) as u64) == 0,
{
}

proof fn lemma_write_two_words(old: u64, v: u64, off: u64, w: u64, t: u64)
    by (bit_vector)
    requires
        1 <= w <= 32,
        off < 64,
        off + w > 64,
        v >> w == 0,
        old >> off == 0,
        t < 64,
    ensures
        t < off ==> (((old | (v << off)) >> t) & 1) == ((old >> t) & 1),
        t >= off ==> (((old | (v << off)) >> t) & 1) == ((v >> ((t - off) as u64)) & 1),
        t + 64 < off + w ==> (((0u64 | (v >> ((64 - off) as u64))) >> t) & 1) == ((v >> ((t + 64 - off) as u64)) & 1),
        (0u64 | (v >> ((64 - off) as u64))) >> ((off + w - 64) as u64) == 0,
{
}

proof fn lemma_high_bits_zero(x: u64, off: u64, t: u64)
    by (bit_vector)
    requires
        x >> off == 0,
        off <= t < 64,
    ensures
        (x >> t) & 1 == 0,
{
}

/// Packs `values` at `bits` bits each into 64-bit words (each value masked
/// to its low `bits` bits), as many words as the stream needs.
pub fn encode_block_states(values: &Vec<u32>, bits: u32) -> (words: Vec<u64>)
    requires
        1 <= bits <= 32,
        values.len() * bits + 63 <= usize::MAX,
    ensures
        is_packing(values@, bits as nat, words@),
{
    let n: usize = values.len();
    let w: usize = bits as usize;
    let total: usize = n * w;
    let needed: usize = (total + 63) / 64;
    let mut words: Vec<u64> = Vec::new();
    let mut k: usize = 0;
    while k < needed
        invariant
            words.len() == k,
            k <= needed,
            forall|t: int| 0 <= t < k ==> words[t] == 0,
        decreases needed - k,
    {
        words.push(0);
        k = k + 1;
    }
    let wb: u64 = bits as u64;
    proof {
        assert(1u64 << wb >= 1) by (bit_vector)
            requires
                1 <= wb <= 32,
        ;
    }
    let mask: u64 = (1u64 << wb) - 1;
    let mut i: usize = 0;
    proof {
        if needed > 0 {
            assert(words[0] == 0);
            assert(0u64 >> 0u64 == 0) by (bit_vector);
        }
    }
    while i < n
        invariant
            n == values.len(),
            w == bits,
            1 <= w <= 32,
            wb == w,
            mask == (((1u64 << wb) - 1) as u64),
            total == n * w,
            needed == (total + 63) / 64,
            words.len() == needed,
            i <= n,
            i * w <= total,
            forall|t: int| (i * w) / 64 < t < needed ==> words[t] == 0,
            (i * w) / 64 < needed ==> words[((i * w) / 64) as int] >> (((i * w) % 64) as u64) == 0,
            forall|j: nat| j < i * w ==> #[trigger] word_bit(words@, j) == packed_bit(values@, w as nat, j),
        decreases n - i,
    {
        proof {
            assert((i + 1) * w == i * w + w) by (nonlinear_arith);
            assert((i + 1) * w <= n * w) by (nonlinear_arith)
                requires
                    i + 1 <= n,
            ;
        }
        let start: usize = i * w;
        let sw: usize = start / 64;
        let off: u64 = (start % 64) as u64;
        let v: u64 = (values[i] as u64) & mask;
        let ghost old_words = words@;
        proof {
            lemma_mask_bits(values[i as int] as u64, wb, 0);
        }
        if start % 64 + w <= 64 {
            let nw = words[sw] | (v << off);
            words.set(sw, nw);
            proof {
                assert forall|j: nat| j < (i + 1) * w implies #[trigger] word_bit(words@, j) == packed_bit(values@, w as nat, j) by {
                    if j / 64 == sw {
                        let t = (j % 64) as u64;
                        lemma_write_one_word(old_words[sw as int], v, off, wb, t);
                        if j >= start {
                            lemma_mask_bits(values[i as int] as u64, wb, (j - start) as u64);
                            lemma_fundamental_div_mod_converse(j as int, w as int, i as int, j - start);
                        } else {
                            assert(word_bit(old_words, j) == packed_bit(values@, w as nat, j));
                        }
                    } else {
                        assert(j < start);
                        assert(word_bit(old_words, j) == packed_bit(values@, w as nat, j));
                    }
                }
                let s2 = (start + w) as int;
                if off + wb < 64 {
                    assert(s2 / 64 == sw);
                    assert(s2 % 64 == off + wb);
                    lemma_write_one_word(old_words[sw as int], v, off, wb, 0);
                } else {
                    assert(s2 / 64 == sw + 1);
                    assert(s2 % 64 == 0);
                    if sw + 1 < needed {
                        assert(words[sw + 1] == 0);
                        assert(0u64 >> 0u64 == 0) by (bit_vector);
                    }
                }
            }
        } else {
            proof {
                assert(sw + 1 < needed);
            }
            let part1 = words[sw] | (v << off);
            let part2 = words[sw + 1] | (v >> (64 - off));
            words.set(sw, part1);
            words.set(sw + 1, part2);
            proof {
                assert(old_words[sw + 1] == 0);
                assert forall|j: nat| j < (i + 1) * w implies #[trigger] word_bit(words@, j) == packed_bit(values@, w as nat, j) by {
                    let t = (j % 64) as u64;
                    if j / 64 == sw {
                        lemma_write_two_words(old_words[sw as int], v, off, wb, t);
                        if j >= start {
                            lemma_mask_bits(values[i as int] as u64, wb, (j - start) as u64);
                            lemma_fundamental_div_mod_converse(j as int, w as int, i as int, j - start);
                        } else {
                            assert(word_bit(old_words, j) == packed_bit(values@, w as nat, j));
                        }
                    } else if j / 64 == sw + 1 {
                        lemma_write_two_words(old_words[sw as int], v, off, wb, t);
                        lemma_mask_bits(values[i as int] as u64, wb, (j - start) as u64);
                        lemma_fundamental_div_mod_converse(j as int, w as int, i as int, j - start);
                    } else {
                        assert(j < start);
                        assert(word_bit(old_words, j) == packed_bit(values@, w as nat, j));
                    }
                }
                let s2 = (start + w) as int;
                assert(s2 / 64 == sw + 1);
                assert(s2 % 64 == off + wb - 64);
                lemma_write_two_words(old_words[sw as int], v, off, wb, 0);
            }
        }
        i = i + 1;
    }
    proof {
        assert forall|j: nat| j < 64 * words.len() implies #[trigger] word_bit(words@, j) == packed_bit(values@, w as nat, j) by {
            if j >= total {
                let t = (j % 64) as u64;
                let sw = (total / 64) as int;
                if j / 64 == sw {
                    lemma_high_bits_zero(words[sw], (total % 64) as u64, t);
                } else {
                    assert(words[(j / 64) as int] == 0);
                    assert((0u64 >> t) & 1 == 0) by (bit_vector);
                }
            }
        }
    }
    words
}

/// The value read back at any index of a packed stream is the value that was
/// packed there, for every width from 1 to 32 and values that fit in it.
pub proof fn lemma_get_at_encode_block_states(values: Seq<u32>, w: nat, words: Seq<u64>, i: nat, r: u32)
    requires
        1 <= w <= 32,
        i < values.len(),
        (values[i as int] as u64) >> (w as u64) == 0,
        is_packing(values, w, words),
        is_field(words, i * w, w, r),
    ensures
        r == values[i as int],
{
    assert((i + 1) * w == i * w + w) by (nonlinear_arith);
    assert((i + 1) * w <= values.len() * w) by (nonlinear_arith)
        requires
            i + 1 <= values.len(),
    ;
    let x = r as u64;
    let y = values[i as int] as u64;
    assert forall|k: nat| k < w implies bit_at(x, k) == bit_at(y, k) by {
        assert(bit_at(x, k) == word_bit(words, i * w + k));
        assert(word_bit(words, i * w + k) == packed_bit(values, w, i * w + k));
        lemma_fundamental_div_mod_converse((i * w + k) as int, w as int, i as int, k as int);
    }
    lemma_bits_equal(x, y, w as u64, 0);
    assert(x >> 0 == x && y >> 0 == y) by (bit_vector);
}

proof fn lemma_bits_step(x: u64, y: u64, k: u64)
    by (bit_vector)
    requires
        k < 64,
        x >> ((k + 1) as u64) == y >> ((k + 1) as u64),
        (x >> k) & 1 == (y >> k) & 1,
    ensures
        x >> k == y >> k,
{
}

proof fn lemma_bits_equal(x: u64, y: u64, w: u64, k: u64)
    requires
        1 <= w <= 32,
        k <= w,
        x >> w == 0,
        y >> w == 0,
        forall|j: nat| k <= j < w ==> bit_at(x, j) == bit_at(y, j),
    ensures
        x >> k == y >> k,
    decreases w - k,
{
    if k < w {
        lemma_bits_equal(x, y, w, (k + 1) as u64);
        assert(bit_at(x, k as nat) == bit_at(y, k as nat));
        assert((x >> k) & 1 == 1 || (x >> k) & 1 == 0) by (bit_vector);
        assert((y >> k) & 1 == 1 || (y >> k) & 1 == 0) by (bit_vector);
        lemma_bits_step(x, y, k);
    }
    if k == 0 {
        assert(x >> 0 == x && y >> 0 == y) by (bit_vector);
    }
}

} // verus!
