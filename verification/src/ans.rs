//! A static, order-0, block-based range ANS (rANS) entropy coder.
//!
//! A 32-bit state is renormalized one byte at a time, with per-symbol
//! probabilities quantized to a total of `TOTAL`. Each block carries its own
//! frequency table, and is coded with `N_LANES` interleaved states over one
//! shared byte stream (symbol `i` rides lane `i % N_LANES`).
//!
//! rANS is LIFO: symbols are encoded last-to-first and decoded first-to-last.
use crate::ans_model::{
    abs, ans_magic, lemma_parse_table_prefix, lemma_chain_prefix, lemma_chain_push, lemma_block_ext, lemma_extends_shorter, lemma_extends_stream, lemma_fresh_bytes, chain, decode_blocks, decoded_stream, extends, parse_table, stream_limit, u16_le_at, block_limit, block_run, code, count_of, covers, decoded_block, encoded_blocks, encoded_stream, flatten, lemma_encoded_blocks_split, lemma_flatten_blocks, lemma_flatten_push, lemma_whole_blocks_append, AnsError, le16, lemma_block_table, lemma_enc_tail_len, present_count, serialized_block, table_bytes, decode_from, initial_lanes, lemma_owner, lemma_owner_range, lemma_valid_from_sum, owner, pull, u32_le_at, enc_emit, enc_states, enc_tail, encoded_block, le32, lemma_code_range, lemma_enc_states, lemma_renorm, renorm, first_max, floors, histogram_of, ints16, ints32, last_max_above_one,
    lemma_floors_inv, lemma_last_max_above_one, lemma_recip, lemma_recip_one, lemma_table_slot, lemma_nudge_step, lemma_sum_nonneg_elem_le, normalized,
    nudge, nudge_inv, renorm_bound, scale, state_hi, sum_to, valid_table, lemma_stream_roundtrip,
};
use vstd::arithmetic::div_mod::lemma_fundamental_div_mod;
use vstd::arithmetic::power2::{lemma2_to64, pow2};
use vstd::prelude::*;

use rayon::iter::{IntoParallelRefIterator, ParallelIterator};

verus! {

/// Probability resolution in bits.
pub const SCALE_BITS: u32 = 12;

/// Every block's frequencies sum to exactly this.
pub const TOTAL: u32 = 4096;

pub const MASK: u32 = 4095;

/// Lower bound of the rANS state interval `[RANS_L, RANS_L << 8)`.
pub const RANS_L: u32 = 0x80_0000;

/// Bytes per coded block.
pub const BLOCK: usize = 0x10_0000;

/// Independent rANS states per block.
pub const N_LANES: usize = 4;

// --- Frequency model -------------------------------------------------------

proof fn lemma_count_take_step(s: Seq<u8>, k: int)
    requires
        0 <= k < s.len(),
    ensures
        forall|b: int|
            #[trigger] count_of(s.take(k + 1), b) == count_of(s.take(k), b) + (if s[k] as int == b {
                1int
            } else {
                0int
            }),
{
    assert(s.take(k + 1).drop_last() =~= s.take(k));
}

proof fn lemma_count_le_len(s: Seq<u8>, b: int)
    ensures
        count_of(s, b) <= s.len(),
    decreases s.len(),
{
    if s.len() > 0 {
        lemma_count_le_len(s.drop_last(), b);
    }
}

/// Tally symbol occurrences.
fn histogram(block: &[u8]) -> (counts: [u32; 256])
    requires
        block@.len() <= u32::MAX,
    ensures
        ints32(counts@) == histogram_of(block@),
{
    let mut counts = [0u32; 256];
    let mut k: usize = 0;
    while k < block.len()
        invariant
            k <= block@.len() <= u32::MAX,
            forall|b: int| 0 <= b < 256 ==> #[trigger] counts[b] == count_of(block@.take(k as int), b),
        decreases block@.len() - k,
    {
        let b = block[k] as usize;
        proof {
            lemma_count_take_step(block@, k as int);
            lemma_count_le_len(block@.take(k as int), b as int);
        }
        counts[b] = counts[b] + 1;
        k += 1;
    }
    assert(block@.take(k as int) =~= block@);
    assert(ints32(counts@) =~= histogram_of(block@));
    counts
}

/// Quantize raw symbol counts to frequencies summing to exactly `TOTAL`, with
/// every present symbol guaranteed at least 1 (so it stays decodable).
pub fn normalize(counts: &[u32; 256]) -> (freq: [u16; 256])
    ensures
        ints16(freq@) == normalized(ints32(counts@)),
{
    let ghost c = ints32(counts@);
    let mut total: u64 = 0;
    let mut i: usize = 0;
    while i < 256
        invariant
            i <= 256,
            c == ints32(counts@),
            total == sum_to(c, i as int),
            total <= i * 0xffff_ffff,
        decreases 256 - i,
    {
        total = total + counts[i] as u64;
        i += 1;
    }
    let mut freq = [0u16; 256];
    if total == 0 {
        assert(ints16(freq@) =~= normalized(c));
        return freq;
    }
    let ghost fl = floors(c, total as int);
    let mut sum: i64 = 0;
    let mut i: usize = 0;
    while i < 256
        invariant
            i <= 256,
            c == ints32(counts@),
            total == sum_to(c, 256),
            total > 0,
            fl == floors(c, total as int),
            sum == sum_to(fl, i as int),
            0 <= sum <= i * 4096,
            forall|j: int| 0 <= j < i ==> #[trigger] freq[j] as int == fl[j],
            forall|j: int| i <= j < 256 ==> #[trigger] freq[j] == 0,
        decreases 256 - i,
    {
        if counts[i] != 0 {
            proof {
                lemma_sum_nonneg_elem_le(c, 256, i as int);
                let ci = c[i as int];
                let t = total as int;
                assert(ci * 4096 / t <= 4096) by (nonlinear_arith)
                    requires
                        0 < ci <= t,
                ;
            }
            // Proportional share, floored, then lifted to a minimum of 1.
            let share = counts[i] as u64 * 4096 / total;
            let f = if share < 1 {
                1
            } else {
                share
            };
            freq[i] = f as u16;
            sum = sum + f as i64;
        }
        i += 1;
    }
    assert(ints16(freq@) =~= fl);
    proof {
        lemma_floors_inv(c);
    }
    // Floors and the min-of-1 lift leave the sum off `TOTAL`; nudge the largest
    // symbols until it lands exactly, never letting any present symbol reach 0.
    let mut diff: i64 = 4096 - sum;
    let ghost target = nudge(fl, scale() - sum_to(fl, 256));
    while diff != 0
        invariant
            c == ints32(counts@),
            nudge(ints16(freq@), diff as int) == target,
            nudge_inv(c, ints16(freq@), diff as int),
        ensures
            diff == 0,
            nudge(ints16(freq@), diff as int) == target,
        decreases abs(diff as int),
    {
        let ghost fs = ints16(freq@);
        proof {
            lemma_nudge_step(c, fs, diff as int);
            lemma_last_max_above_one(fs, 256);
        }
        if diff > 0 {
            // Index of the current largest frequency.
            let mut bi: usize = usize::MAX;
            let mut bf: u16 = 0;
            let mut i: usize = 0;
            while i < 256
                invariant
                    i <= 256,
                    fs == ints16(freq@),
                    (if bi == usize::MAX {
                        -1
                    } else {
                        bi as int
                    }, bf as int) == first_max(fs, i as int),
                    bi == usize::MAX || bi < i,
                decreases 256 - i,
            {
                if freq[i] > bf {
                    bf = freq[i];
                    bi = i;
                }
                i += 1;
            }
            assert(nudge(fs, diff as int) == nudge(fs.update(bi as int, fs[bi as int] + 1), diff - 1));
            freq[bi] = freq[bi] + 1;
            diff = diff - 1;
            assert(ints16(freq@) =~= fs.update(bi as int, fs[bi as int] + 1));
        } else {
            // Only shave a symbol that can spare it: the last of the largest.
            let mut best: Option<(usize, u16)> = None;
            let mut i: usize = 0;
            while i < 256
                invariant
                    i <= 256,
                    fs == ints16(freq@),
                    match best {
                        None => last_max_above_one(fs, i as int) is None,
                        Some((bi, bf)) => bi < i && last_max_above_one(fs, i as int) == Some(
                            (bi as int, bf as int),
                        ),
                    },
                decreases 256 - i,
            {
                let f = freq[i];
                if f > 1 {
                    match best {
                        None => {
                            best = Some((i, f));
                        },
                        Some((_, bf)) => {
                            if f >= bf {
                                best = Some((i, f));
                            }
                        },
                    }
                }
                i += 1;
            }
            match best {
                Some((idx, _)) => {
                    assert(nudge(fs, diff as int) == nudge(
                        fs.update(idx as int, fs[idx as int] - 1),
                        diff + 1,
                    ));
                    freq[idx] = freq[idx] - 1;
                    diff = diff + 1;
                    assert(ints16(freq@) =~= fs.update(idx as int, fs[idx as int] - 1));
                },
                None => {
                    break ;
                },
            }
        }
    }
    freq
}

/// Cumulative frequencies: `cum[s]..cum[s + 1]` is symbol `s`'s slot range.
fn cumulative(freq: &[u16; 256]) -> (cum: [u32; 257])
    ensures
        forall|i: int| 0 <= i <= 256 ==> #[trigger] cum[i] == sum_to(ints16(freq@), i),
{
    let ghost f = ints16(freq@);
    let mut cum = [0u32; 257];
    let mut i: usize = 0;
    while i < 256
        invariant
            i <= 256,
            f == ints16(freq@),
            forall|j: int| 0 <= j <= i ==> #[trigger] cum[j] == sum_to(f, j),
            cum[i as int] <= i * 0xffff,
        decreases 256 - i,
    {
        cum[i + 1] = cum[i] + freq[i] as u32;
        i += 1;
    }
    cum
}


// --- Encode / decode symbol tables -----------------------------------------

/// Per-symbol encode parameters. The reciprocal (`rcp_freq`, `rcp_shift`) turns
/// the rANS division by `freq` into a multiply-high and a shift; `bias` and
/// `compl_freq` fold the cumulative offset and `TOTAL - freq` into the update.
#[derive(Clone, Copy)]
struct EncSym {
    x_max: u32,
    rcp_freq: u32,
    rcp_shift: u32,
    bias: u32,
    compl_freq: u32,
}

/// The quotient the encoder computes with the reciprocal.
spec fn enc_quot(e: EncSym, x: int) -> int {
    (x * e.rcp_freq / 0x1_0000_0000) / (pow2(e.rcp_shift as nat) as int)
}

/// `e` encodes a symbol of frequency `f` whose slots start at `start`.
spec fn enc_sym_ok(e: EncSym, f: int, start: int) -> bool {
    &&& e.x_max == renorm_bound(f)
    &&& e.compl_freq == scale() - f
    &&& e.rcp_shift < 32
    &&& (f >= 1 ==> forall|x: int|
        1 <= x < state_hi() ==> x + e.bias + #[trigger] enc_quot(e, x) * e.compl_freq == code(
            x,
            f,
            start,
        ))
}

/// Build the per-symbol encode table for one block's frequencies.
fn build_enc(freq: &[u16; 256], cum: &[u32; 257]) -> (enc: [EncSym; 256])
    requires
        valid_table(ints16(freq@)),
        forall|i: int| 0 <= i <= 256 ==> #[trigger] cum[i] == sum_to(ints16(freq@), i),
    ensures
        forall|s: int|
            0 <= s < 256 ==> enc_sym_ok(#[trigger] enc[s], freq[s] as int, cum[s] as int),
{
    let ghost fq = ints16(freq@);
    let mut enc = [EncSym { x_max: 0, rcp_freq: 0, rcp_shift: 0, bias: 0, compl_freq: 0 }; 256];
    let mut s: usize = 0;
    while s < 256
        invariant
            s <= 256,
            fq == ints16(freq@),
            valid_table(fq),
            forall|i: int| 0 <= i <= 256 ==> #[trigger] cum[i] == sum_to(fq, i),
            forall|t: int| 0 <= t < s ==> enc_sym_ok(#[trigger] enc[t], freq[t] as int, cum[t] as int),
        decreases 256 - s,
    {
        let f = freq[s] as u32;
        let start = cum[s];
        proof {
            lemma_table_slot(fq, s as int);
            assert(fq[s as int] == f);
        }
        // Renorm threshold: emit bytes until the state can absorb this symbol.
        assert(((RANS_L >> SCALE_BITS) << 8u32) == 524288u32) by (bit_vector);
        let x_max = ((RANS_L >> SCALE_BITS) << 8) * f;
        let compl_freq = TOTAL - f;
        let (rcp_freq, rcp_shift, bias) = if f < 2 {
            // freq 0 (absent, never encoded) or 1: division by 1 needs no reciprocal.
            assert(!0u32 == 0xffff_ffffu32) by (bit_vector);
            proof {
                lemma2_to64();
                assert forall|x: int| 1 <= x < state_hi() && f >= 1 implies x + (start + TOTAL - 1)
                    + (x * 0xffff_ffff / 0x1_0000_0000) / (pow2(0) as int) * (TOTAL - f) == code(
                    x,
                    f as int,
                    start as int,
                ) by {
                    lemma_recip_one(x);
                    assert(f == 1);
                    assert(pow2(0) == 1);
                    assert((x - 1) / 1 == x - 1);
                    assert(x / 1 == x && x % 1 == 0);
                    assert(code(x, 1, start as int) == x * 4096 + start);
                    assert((x - 1) * (TOTAL - f) == (x - 1) * 4095);
                }
            }
            (!0u32, 0u32, start + TOTAL - 1)
        } else {
            let mut shift = 0u32;
            proof {
                lemma2_to64();
            }
            while f > (1u32 << shift)
                invariant
                    2 <= f <= 4096,
                    shift <= 12,
                    shift == 0 || pow2((shift - 1) as nat) < f,
                decreases 12 - shift,
            {
                proof {
                    lemma2_to64();
                    vstd::bits::lemma_u32_shl_is_mul(1, shift);
                }
                shift += 1;
            }
            proof {
                lemma2_to64();
                vstd::bits::lemma_u32_shl_is_mul(1, shift);
            }
            let sh64: u64 = (shift + 31) as u64;
            proof {
                lemma2_to64();
                vstd::arithmetic::power2::lemma2_to64_rest();
                vstd::arithmetic::power2::lemma_pow2_strictly_increases(sh64 as nat, 44);
                vstd::bits::lemma_u64_shl_is_mul(1, sh64);
            }
            let rcp64 = ((1u64 << sh64) + f as u64 - 1) / f as u64;
            proof {
                lemma_recip(1, f as int, shift as nat, rcp64 as int);
                assert forall|x: int| 1 <= x < state_hi() implies x + start + (x * rcp64 / 0x1_0000_0000)
                    / (pow2((shift - 1) as nat) as int) * (TOTAL - f) == code(
                    x,
                    f as int,
                    start as int,
                ) by {
                    lemma_recip(x, f as int, shift as nat, rcp64 as int);
                    lemma_fundamental_div_mod(x, f as int);
                    let q = x / (f as int);
                    assert(q * (4096 - f) == q * 4096 - f * q) by (nonlinear_arith);
                }
            }
            (rcp64 as u32, shift - 1, start)
        };
        enc[s] = EncSym { x_max, rcp_freq, rcp_shift, bias, compl_freq };
        s += 1;
    }
    enc
}


// --- Block codec -----------------------------------------------------------

proof fn lemma_lane(i: usize)
    ensures
        i & 3 == i % 4,
{
    assert(i & 3 == i % 4) by (bit_vector);
}

proof fn lemma_reverse_add(a: Seq<u8>, b: Seq<u8>)
    ensures
        (a + b).reverse() =~= b.reverse() + a.reverse(),
        a.reverse().reverse() =~= a,
{
}

/// Push the big-endian bytes of `x`.
fn push_u32_be(out: &mut Vec<u8>, x: u32)
    ensures
        final(out)@ == old(out)@ + le32(x as int).reverse(),
{
    assert(((x >> 24u32) & 0xffu32) == (x / 0x100_0000) % 256) by (bit_vector);
    assert(((x >> 16u32) & 0xffu32) == (x / 0x1_0000) % 256) by (bit_vector);
    assert(((x >> 8u32) & 0xffu32) == (x / 0x100) % 256) by (bit_vector);
    assert((x & 0xffu32) == x % 256) by (bit_vector);
    out.push(((x >> 24) & 0xff) as u8);
    out.push(((x >> 16) & 0xff) as u8);
    out.push(((x >> 8) & 0xff) as u8);
    out.push((x & 0xff) as u8);
    assert(final(out)@ =~= old(out)@ + le32(x as int).reverse());
}

/// Reverse `v` in place.
fn reverse_in_place(v: &mut Vec<u8>)
    ensures
        final(v)@ == old(v)@.reverse(),
{
    let n = v.len();
    let mut k: usize = 0;
    while k < n / 2
        invariant
            n == v.len() == old(v)@.len(),
            k <= n / 2,
            forall|j: int|
                0 <= j < n ==> #[trigger] v@[j] == (if j < k || j >= n - k {
                    old(v)@[n - 1 - j]
                } else {
                    old(v)@[j]
                }),
        decreases n / 2 - k,
    {
        let a = v[k];
        let b = v[n - 1 - k];
        v.set(k, b);
        v.set(n - 1 - k, a);
        k += 1;
    }
    assert(v@ =~= old(v)@.reverse());
}

/// Entropy-code one block with `N_LANES` interleaved rANS states.
///
/// rANS encodes back-to-front: renorm bytes are pushed in encode order, then the
/// whole buffer is reversed once so the decoder reads it front-to-back. The
/// terminal states are pushed last (lane 0 last), so they land first after the
/// reversal.
fn encode_block(data: &[u8], enc: &[EncSym; 256], Ghost(freq): Ghost<Seq<int>>) -> (out: Vec<u8>)
    requires
        valid_table(freq),
        covers(freq, data@),
        data@.len() <= BLOCK,
        forall|s: int| 0 <= s < 256 ==> enc_sym_ok(#[trigger] enc[s], freq[s], sum_to(freq, s)),
    ensures
        out@ == encoded_block(data@, freq),
{
    let mut out: Vec<u8> = Vec::with_capacity(data.len() / 2 + 4 * N_LANES + 16);
    let mut state = [RANS_L; N_LANES];
    let mut i = data.len();
    assert(enc_states(data@, freq, i as int) =~= seq![state[0] as int, state[1] as int, state[2] as int, state[3] as int]);
    while i > 0
        invariant
            i <= data@.len() <= BLOCK,
            valid_table(freq),
            covers(freq, data@),
            forall|s: int| 0 <= s < 256 ==> enc_sym_ok(#[trigger] enc[s], freq[s], sum_to(freq, s)),
            enc_states(data@, freq, i as int) == seq![state[0] as int, state[1] as int, state[2] as int, state[3] as int],
            out@ == enc_tail(data@, freq, i as int).reverse(),
        decreases i,
    {
        i -= 1;
        proof {
            lemma_lane(i);
            lemma_enc_states(data@, freq, i as int + 1);
        }
        let lane = i & (N_LANES - 1);
        let s = data[i] as usize;
        let sym = enc[s];
        let ghost st = enc_states(data@, freq, i as int + 1);
        let ghost f = freq[s as int];
        let ghost xmax = renorm_bound(f);
        let ghost base = out@;
        let ghost x0 = st[lane as int];
        let ghost em = renorm(x0, xmax).0;
        let ghost y = renorm(x0, xmax).1;
        proof {
            assert(f > 0);
            lemma_table_slot(freq, s as int);
            lemma_renorm(x0, xmax);
        }
        let mut x = state[lane];
        // Renormalize down so the encode step cannot overflow the 32-bit state.
        while x >= sym.x_max
            invariant
                sym.x_max == xmax,
                xmax > 0,
                x <= x0,
                out@ + renorm(x as int, xmax).0 == base + em,
                renorm(x as int, xmax).1 == y,
            decreases x,
        {
            assert((x & 0xffu32) == x % 256) by (bit_vector);
            assert((x >> 8u32) == x / 256) by (bit_vector);
            let ghost before = out@;
            let ghost xi = x as int;
            assert(renorm(xi, xmax).0 == seq![(xi % 256) as u8] + renorm(xi / 256, xmax).0);
            out.push((x & 0xff) as u8);
            x >>= 8;
            assert(out@ + renorm(x as int, xmax).0 =~= before + renorm(xi, xmax).0);
        }
        assert(out@ =~= base + em);
        assert(x as int == y);
        assert(f <= 4096);
        assert(x < 0x8000_0000u32);
        assert((x as u64) * (sym.rcp_freq as u64) < 0x8000_0000_0000_0000u64) by (nonlinear_arith)
            requires
                x < 0x8000_0000u32,
        ;
        // x = C(s, x), the division replaced by a reciprocal multiply.
        let prod: u64 = x as u64 * sym.rcp_freq as u64;
        let hi = (prod >> 32) as u32;
        let q = hi >> sym.rcp_shift;
        proof {
            lemma2_to64();
            vstd::bits::lemma_u64_shr_is_div(prod, 32);
            vstd::bits::lemma_u32_shr_is_div(hi, sym.rcp_shift);
            assert(q == enc_quot(sym, x as int));
            assert(y >= f * 2048);
            lemma_code_range(y, f, sum_to(freq, s as int));
            assert(x as int + sym.bias + q * sym.compl_freq == code(y, f, sum_to(freq, s as int)));
        }
        state[lane] = x + sym.bias + q * sym.compl_freq;
        proof {
            lemma_reverse_add(enc_emit(data@, freq, i as int).reverse(), enc_tail(data@, freq, i as int + 1));
            assert(enc_emit(data@, freq, i as int) == em);
            assert(out@ =~= enc_tail(data@, freq, i as int).reverse());
            assert(enc_states(data@, freq, i as int) =~= seq![state[0] as int, state[1] as int, state[2] as int, state[3] as int]);
        }
    }
    // Flush terminal states big-endian and in reverse lane order; after the
    // buffer is reversed they read back little-endian with lane 0 first.
    let ghost st0 = enc_states(data@, freq, 0);
    let ghost t = enc_tail(data@, freq, 0);
    push_u32_be(&mut out, state[3]);
    push_u32_be(&mut out, state[2]);
    push_u32_be(&mut out, state[1]);
    push_u32_be(&mut out, state[0]);
    reverse_in_place(&mut out);
    proof {
        lemma_reverse_add(t.reverse(), le32(st0[3]).reverse());
        assert(out@ =~= encoded_block(data@, freq));
    }
    out
}


/// A packed decode-table entry: symbol, slot start, and frequency minus one.
spec fn pack(s: int, start: int, fm1: int) -> int {
    s + start * 0x100 + fm1 * 0x10_0000
}

proof fn lemma_pack(s: u32, start: u32, fm1: u32)
    requires
        s < 256,
        start < 4096,
        fm1 < 4096,
    ensures
        s | (start << 8u32) | (fm1 << 20u32) == pack(s as int, start as int, fm1 as int),
        pack(s as int, start as int, fm1 as int) <= u32::MAX,
        (s | (start << 8u32) | (fm1 << 20u32)) & 0xffu32 == s,
        ((s | (start << 8u32) | (fm1 << 20u32)) >> 8u32) & 0xfffu32 == start,
        ((s | (start << 8u32) | (fm1 << 20u32)) >> 20u32) & 0xfffu32 == fm1,
{
    assert(s | (start << 8u32) | (fm1 << 20u32) == s + start * 0x100 + fm1 * 0x10_0000) by (bit_vector)
        requires
            s < 256,
            start < 4096,
            fm1 < 4096,
    ;
    assert((s | (start << 8u32) | (fm1 << 20u32)) & 0xffu32 == s) by (bit_vector)
        requires
            s < 256,
            start < 4096,
            fm1 < 4096,
    ;
    assert(((s | (start << 8u32) | (fm1 << 20u32)) >> 8u32) & 0xfffu32 == start) by (bit_vector)
        requires
            s < 256,
            start < 4096,
            fm1 < 4096,
    ;
    assert(((s | (start << 8u32) | (fm1 << 20u32)) >> 20u32) & 0xfffu32 == fm1) by (bit_vector)
        requires
            s < 256,
            start < 4096,
            fm1 < 4096,
    ;
}

/// The decode-table entry of `slot` under table `freq`.
spec fn dec_entry(freq: Seq<int>, slot: int) -> int {
    let s = owner(freq, slot, 0);
    pack(s, sum_to(freq, s), freq[s] - 1)
}

/// Build the packed `slot -> (symbol, cum, freq)` decode table, validating that
/// the frequencies sum to exactly `TOTAL` (a corrupt table is rejected).
fn build_dec(freq: &[u16; 256], cum: &[u32; 257]) -> (r: Result<Vec<u32>, AnsError>)
    requires
        forall|i: int| 0 <= i <= 256 ==> #[trigger] cum[i] == sum_to(ints16(freq@), i),
    ensures
        r is Err <==> sum_to(ints16(freq@), 256) != scale(),
        r is Err ==> r == Err::<Vec<u32>, AnsError>(AnsError::BadTable),
        r matches Ok(dec) ==> dec@.len() == 4096 && forall|slot: int|
            0 <= slot < 4096 ==> #[trigger] dec@[slot] as int == dec_entry(ints16(freq@), slot),
{
    let ghost fq = ints16(freq@);
    if cum[256] != TOTAL {
        return Err(AnsError::BadTable);
    }
    proof {
        lemma_valid_from_sum(fq);
    }
    let mut dec: Vec<u32> = vec![0u32; 4096];
    let mut s: usize = 0;
    while s < 256
        invariant
            s <= 256,
            fq == ints16(freq@),
            valid_table(fq),
            forall|i: int| 0 <= i <= 256 ==> #[trigger] cum[i] == sum_to(fq, i),
            dec@.len() == 4096,
            forall|slot: int| 0 <= slot < cum[s as int] ==> #[trigger] dec@[slot] as int == dec_entry(fq, slot),
        decreases 256 - s,
    {
        let f = freq[s] as u32;
        proof {
            lemma_table_slot(fq, s as int);
        }
        if f != 0 {
            let start = cum[s];
            // start <= 4095 and f - 1 <= 4095, so all three fit a u32.
            proof {
                lemma_pack(s as u32, start, (f - 1) as u32);
            }
            let packed = (s as u32) | (start << 8) | ((f - 1) << 20);
            let mut slot = start;
            while slot < start + f
                invariant
                    s < 256,
                    fq == ints16(freq@),
                    valid_table(fq),
                    forall|i: int| 0 <= i <= 256 ==> #[trigger] cum[i] == sum_to(fq, i),
                    start == cum[s as int],
                    f == fq[s as int],
                    f > 0,
                    start + f <= 4096,
                    packed == pack(s as int, start as int, f - 1),
                    start <= slot <= start + f,
                    dec@.len() == 4096,
                    forall|j: int| 0 <= j < slot ==> #[trigger] dec@[j] as int == dec_entry(fq, j),
                decreases start + f - slot,
            {
                proof {
                    lemma_owner(fq, slot as int, s as int, 0);
                }
                dec.set(slot as usize, packed);
                slot += 1;
            }
        }
        s += 1;
    }
    Ok(dec)
}

/// Decode `n` symbols from a block stream produced by `encode_block`, given the
/// block's frequency table.
fn decode_block(stream: &[u8], n: usize, freq: &[u16; 256]) -> (r: Result<Vec<u8>, AnsError>)
    ensures
        match r {
            Ok(v) => decoded_block(stream@, n as int, ints16(freq@)) == Ok::<Seq<u8>, AnsError>(v@),
            Err(e) => decoded_block(stream@, n as int, ints16(freq@)) == Err::<Seq<u8>, AnsError>(e),
        },
{
    let ghost fq = ints16(freq@);
    let cum = cumulative(freq);
    let dec = build_dec(freq, &cum)?;
    if stream.len() < 4 * N_LANES {
        return Err(AnsError::Truncated);
    }
    proof {
        lemma_valid_from_sum(fq);
    }
    let mut state = [0u32; N_LANES];
    let mut pos: usize = 0;
    let mut l: usize = 0;
    while l < N_LANES
        invariant
            l <= 4,
            pos == 4 * l,
            stream@.len() >= 16,
            forall|k: int| 0 <= k < l ==> #[trigger] state[k] as int == initial_lanes(stream@)[k],
        decreases 4 - l,
    {
        state[l] = read_u32_le(stream, pos);
        pos += 4;
        l += 1;
    }
    let ghost target = decode_from(stream@, fq, n as int, 0, initial_lanes(stream@), 16);
    assert(seq![state[0] as int, state[1] as int, state[2] as int, state[3] as int] =~= initial_lanes(stream@));
    let mut out = vec![0u8; n];
    let mut i: usize = 0;
    while i < n
        invariant
            i <= n == out@.len(),
            pos <= stream@.len(),
            valid_table(fq),
            fq == ints16(freq@),
            dec@.len() == 4096,
            forall|slot: int| 0 <= slot < 4096 ==> #[trigger] dec@[slot] as int == dec_entry(fq, slot),
            target == decode_from(stream@, fq, n as int, 0, initial_lanes(stream@), 16),
            match decode_from(stream@, fq, n as int, i as int, seq![state[0] as int, state[1] as int, state[2] as int, state[3] as int], pos as int) {
                Some(rest) => target == Some(out@.take(i as int) + rest),
                None => target is None,
            },
        decreases n - i,
    {
        proof {
            lemma_lane(i);
        }
        let lane = i & (N_LANES - 1);
        let ghost lanes = seq![state[0] as int, state[1] as int, state[2] as int, state[3] as int];
        let mut x = state[lane];
        let slot = (x & MASK) as usize;
        assert((x & 4095u32) == x % 4096) by (bit_vector);
        let packed = dec[slot];
        let ghost so = owner(fq, slot as int, 0);
        proof {
            lemma_owner_range(fq, slot as int, 0);
            lemma_table_slot(fq, so);
            lemma_pack(so as u32, sum_to(fq, so) as u32, (fq[so] - 1) as u32);
        }
        let sym = (packed & 0xff) as u8;
        let start = (packed >> 8) & 0xfff;
        let f = ((packed >> 20) & 0xfff) + 1;
        assert((x >> 12u32) == x / 4096) by (bit_vector);
        assert(f * (x >> 12) <= f * 0xfffffu32) by (nonlinear_arith)
            requires
                (x >> 12u32) <= 0xfffffu32,
        ;
        assert((x >> 12u32) <= 0xfffffu32) by (bit_vector);
        assert(f * 0xfffffu32 + 4096 <= 0x1_0000_0000) by (nonlinear_arith)
            requires
                f <= 4096,
        ;
        x = f * (x >> SCALE_BITS) + slot as u32 - start;
        let ghost x2 = x as int;
        let ghost p0 = pos as int;
        proof {
            assert(x2 == fq[so] * (lanes[lane as int] / 4096) + (lanes[lane as int] % 4096) - sum_to(fq, so));
            if pull(stream@, p0, x2) is None {
                assert(decode_from(stream@, fq, n as int, i as int, lanes, p0) is None);
            }
        }
        let ghost dres = decoded_block(stream@, n as int, fq);
        // Renormalize up by pulling in bytes until the state re-enters its interval.
        while x < RANS_L
            invariant
                p0 <= pos <= stream@.len(),
                pull(stream@, pos as int, x as int) == pull(stream@, p0, x2),
                pull(stream@, p0, x2) is None ==> target is None,
                target is None ==> dres == Err::<Seq<u8>, AnsError>(AnsError::Truncated),
                dres == decoded_block(stream@, n as int, fq),
                fq == ints16(freq@),
            decreases stream@.len() - pos,
        {
            if pos >= stream.len() {
                proof {
                    assert(pull(stream@, pos as int, x as int) is None);
                }
                return Err(AnsError::Truncated);
            }
            let byte = stream[pos];
            assert((x << 8u32) | (byte as u32) == x * 256 + byte) by (bit_vector)
                requires
                    x < 0x80_0000u32,
            ;
            x = (x << 8) | byte as u32;
            pos += 1;
        }
        state[lane] = x;
        out.set(i, sym);
        proof {
            assert(sym as int == so);
            assert(seq![state[0] as int, state[1] as int, state[2] as int, state[3] as int] =~= lanes.update(lane as int, x as int));
            assert(out@.take(i as int + 1) =~= out@.take(i as int) + seq![so as u8]);
            match decode_from(stream@, fq, n as int, i as int + 1, lanes.update(lane as int, x as int), pos as int) {
                Some(rest) => {
                    assert(out@.take(i as int + 1) + rest =~= out@.take(i as int) + (seq![so as u8] + rest));
                },
                None => {},
            }
        }
        i += 1;
    }
    proof {
        assert(out@.take(n as int) =~= out@);
        assert(out@ + Seq::<u8>::empty() =~= out@);
    }
    Ok(out)
}

/// The little-endian `u32` at `pos`.
pub(crate) fn read_u32_le(s: &[u8], pos: usize) -> (v: u32)
    requires
        pos + 4 <= s@.len(),
    ensures
        v as int == u32_le_at(s@, pos as int),
{
    let b0 = s[pos] as u32;
    let b1 = s[pos + 1] as u32;
    let b2 = s[pos + 2] as u32;
    let b3 = s[pos + 3] as u32;
    assert(b0 | (b1 << 8u32) | (b2 << 16u32) | (b3 << 24u32) == b0 + b1 * 0x100 + b2 * 0x1_0000 + b3 * 0x100_0000) by (bit_vector)
        requires
            b0 < 256,
            b1 < 256,
            b2 < 256,
            b3 < 256,
    ;
    b0 | (b1 << 8) | (b2 << 16) | (b3 << 24)
}


/// Push the little-endian bytes of `x`.
pub(crate) fn push_u32_le(out: &mut Vec<u8>, x: u32)
    ensures
        final(out)@ == old(out)@ + le32(x as int),
{
    assert(((x >> 24u32) & 0xffu32) == (x / 0x100_0000) % 256) by (bit_vector);
    assert(((x >> 16u32) & 0xffu32) == (x / 0x1_0000) % 256) by (bit_vector);
    assert(((x >> 8u32) & 0xffu32) == (x / 0x100) % 256) by (bit_vector);
    assert((x & 0xffu32) == x % 256) by (bit_vector);
    out.push((x & 0xff) as u8);
    out.push(((x >> 8) & 0xff) as u8);
    out.push(((x >> 16) & 0xff) as u8);
    out.push(((x >> 24) & 0xff) as u8);
    assert(final(out)@ =~= old(out)@ + le32(x as int));
}

/// Push the little-endian bytes of `x`.
fn push_u16_le(out: &mut Vec<u8>, x: u16)
    ensures
        final(out)@ == old(out)@ + le16(x as int),
{
    assert(((x >> 8u16) & 0xffu16) == (x / 0x100) % 256) by (bit_vector);
    assert((x & 0xffu16) == x % 256) by (bit_vector);
    out.push((x & 0xff) as u8);
    out.push(((x >> 8) & 0xff) as u8);
    assert(final(out)@ =~= old(out)@ + le16(x as int));
}

/// Serialize one block to its on-wire form, header and stream coalesced into a
/// single buffer: `[raw_len][nsym][(symbol, freq)...][stream_len][stream]`.
pub fn serialize_block(block: &[u8]) -> (out: Vec<u8>)
    requires
        0 < block@.len() <= BLOCK,
    ensures
        out@ == serialized_block(block@),
{
    let counts = histogram(block);
    let freq = normalize(&counts);
    let cum = cumulative(&freq);
    let ghost f = ints16(freq@);
    proof {
        lemma_block_table(block@);
        lemma_enc_tail_len(block@, f, 0);
    }
    let enc = build_enc(&freq, &cum);
    let stream = encode_block(block, &enc, Ghost(f));
    let mut present: usize = 0;
    let mut i: usize = 0;
    while i < 256
        invariant
            i <= 256,
            f == ints16(freq@),
            present == present_count(f, i as int),
            present <= i,
        decreases 256 - i,
    {
        if freq[i] > 0 {
            present += 1;
        }
        i += 1;
    }
    let mut out: Vec<u8> = Vec::with_capacity(4 + 2 + present * 3 + 4 + stream.len());
    // raw_len > 0 marks a data block (0 is reserved for the EOF marker).
    push_u32_le(&mut out, block.len() as u32);
    push_u16_le(&mut out, present as u16);
    let ghost head = out@;
    let mut i: usize = 0;
    while i < 256
        invariant
            i <= 256,
            f == ints16(freq@),
            out@ == head + table_bytes(f, i as int),
        decreases 256 - i,
    {
        if freq[i] > 0 {
            out.push(i as u8);
            push_u16_le(&mut out, freq[i]);
        }
        assert(out@ =~= head + table_bytes(f, i as int + 1));
        i += 1;
    }
    push_u32_le(&mut out, stream.len() as u32);
    let ghost before = out@;
    out.extend_from_slice(&stream);
    assert(out@ =~= before + stream@);
    proof {
        reveal(serialized_block);
    }
    out
}


// --- Parallel batches --------------------------------------------------------

/// The views of a batch of blocks.
pub open spec fn views(bs: Seq<Vec<u8>>) -> Seq<Seq<u8>> {
    bs.map_values(|b: Vec<u8>| b@)
}

/// Serialize a batch of blocks across every core.
///
/// Calls `rayon`'s `par_iter().map(..).collect()`, which keeps the order of the
/// items; each result is `serialize_block` of the block in the same place.
#[verifier::external_body]
fn serialize_batch(blocks: &Vec<Vec<u8>>) -> (r: Vec<Vec<u8>>)
    requires
        forall|i: int| 0 <= i < blocks@.len() ==> 0 < (#[trigger] blocks@[i])@.len() <= BLOCK,
    ensures
        r@.len() == blocks@.len(),
        forall|i: int| 0 <= i < r@.len() ==> (#[trigger] r@[i])@ == serialized_block(blocks@[i]@),
{
    blocks.par_iter().map(|b| serialize_block(b)).collect()
}

/// The number of worker threads `rayon` runs; the writer and reader batch that
/// many blocks at a time. Nothing is claimed of the value.
#[verifier::external_body]
fn worker_threads() -> usize {
    rayon::current_num_threads()
}

// --- Streaming writer ------------------------------------------------------

/// An encoder that entropy-codes its input with rANS, one `BLOCK` at a time and
/// a batch of blocks across every core. The coded bytes collect in an output
/// buffer that the caller drains.
///
/// Call [`AnsWriter::finish`] to flush the final partial block and the
/// end-of-stream marker; without it the stream is truncated.
pub struct AnsWriter {
    out: Vec<u8>,
    buf: Vec<u8>,
    pending: Vec<Vec<u8>>,
    batch: usize,
    finished: bool,
    written: Ghost<Seq<u8>>,
    coded: Ghost<Seq<u8>>,
    taken: Ghost<Seq<u8>>,
}

impl AnsWriter {
    /// Everything written so far.
    pub closed spec fn input(&self) -> Seq<u8> {
        self.written@
    }

    /// Every coded byte produced so far (handed out or not).
    pub closed spec fn output(&self) -> Seq<u8> {
        self.taken@ + self.out@
    }

    /// The coded bytes already handed out.
    pub closed spec fn emitted(&self) -> Seq<u8> {
        self.taken@
    }

    pub closed spec fn is_finished(&self) -> bool {
        self.finished
    }

    pub closed spec fn wf(&self) -> bool {
        &&& self.batch >= 1
        &&& self.pending@.len() < self.batch
        &&& forall|i: int| 0 <= i < self.pending@.len() ==> (#[trigger] self.pending@[i])@.len() == BLOCK
        &&& self.buf@.len() < BLOCK
        &&& if self.finished {
            &&& self.taken@ + self.out@ == encoded_stream(self.written@)
            &&& self.pending@.len() == 0
            &&& self.buf@.len() == 0
        } else {
            &&& self.coded@.len() as int % block_limit() == 0
            &&& self.written@ == self.coded@ + flatten(views(self.pending@)) + self.buf@
            &&& self.taken@ + self.out@ == ans_magic() + encoded_blocks(self.coded@)
        }
    }

    /// A new encoder; the stream magic is written immediately.
    pub fn new() -> (w: AnsWriter)
        ensures
            w.wf(),
            w.input() == Seq::<u8>::empty(),
            w.output() == ans_magic(),
            w.emitted() == Seq::<u8>::empty(),
            !w.is_finished(),
    {
        let mut out: Vec<u8> = Vec::new();
        out.push(0x41);
        out.push(0x4e);
        out.push(0x53);
        out.push(0x32);
        let threads = worker_threads();
        let batch = if threads < 1 {
            1
        } else {
            threads
        };
        let w = AnsWriter {
            out,
            buf: Vec::with_capacity(BLOCK),
            pending: Vec::with_capacity(batch),
            batch,
            finished: false,
            written: Ghost(Seq::empty()),
            coded: Ghost(Seq::empty()),
            taken: Ghost(Seq::empty()),
        };
        assert(w.taken@ + w.out@ =~= ans_magic());
        assert(flatten(views(w.pending@)) =~= Seq::<u8>::empty());
        assert(w.written@ =~= w.coded@ + flatten(views(w.pending@)) + w.buf@);
        assert(encoded_blocks(Seq::<u8>::empty()) =~= Seq::<u8>::empty());
        assert(ans_magic() + Seq::<u8>::empty() =~= ans_magic());
        w
    }

    /// Entropy-code the pending batch in parallel and append the results in order.
    fn flush_batch(&mut self)
        requires
            block_run(views(old(self).pending@)),
            old(self).coded@.len() as int % block_limit() == 0,
            old(self).taken@ + old(self).out@ == ans_magic() + encoded_blocks(old(self).coded@),
        ensures
            final(self).pending@.len() == 0,
            final(self).coded@ == old(self).coded@ + flatten(views(old(self).pending@)),
            final(self).taken@ + final(self).out@ == ans_magic() + encoded_blocks(final(self).coded@),
            final(self).buf == old(self).buf,
            final(self).batch == old(self).batch,
            final(self).finished == old(self).finished,
            final(self).written == old(self).written,
            final(self).taken == old(self).taken,
    {
        if self.pending.len() == 0 {
            assert(flatten(views(self.pending@)) =~= Seq::<u8>::empty());
            assert(self.coded@ + Seq::<u8>::empty() =~= self.coded@);
            return;
        }
        let mut blocks: Vec<Vec<u8>> = Vec::new();
        std::mem::swap(&mut blocks, &mut self.pending);
        let ghost bv = views(blocks@);
        assert forall|i: int| 0 <= i < blocks@.len() implies 0 < (#[trigger] blocks@[i])@.len() <= BLOCK by {
            assert(bv[i] == blocks@[i]@);
        }
        let encoded = serialize_batch(&blocks);
        let ghost coded0 = self.coded@;
        let ghost out0 = self.out@;
        let mut j: usize = 0;
        while j < encoded.len()
            invariant
                j <= encoded@.len() == blocks@.len() == bv.len(),
                bv == views(blocks@),
                block_run(bv),
                forall|i: int| 0 <= i < encoded@.len() ==> (#[trigger] encoded@[i])@ == serialized_block(blocks@[i]@),
                self.out@ == out0 + flatten(bv.take(j as int).map_values(|b: Seq<u8>| serialized_block(b))),
                self.coded@ == coded0,
                self.pending@.len() == 0,
                self.buf == old(self).buf,
                self.batch == old(self).batch,
                self.finished == old(self).finished,
                self.written == old(self).written,
                self.taken == old(self).taken,
            decreases encoded@.len() - j,
        {
            let ghost before = self.out@;
            self.out.extend_from_slice(&encoded[j]);
            proof {
                let m = bv.take(j as int + 1).map_values(|b: Seq<u8>| serialized_block(b));
                assert(m =~= bv.take(j as int).map_values(|b: Seq<u8>| serialized_block(b)).push(serialized_block(bv[j as int])));
                lemma_flatten_push(bv.take(j as int).map_values(|b: Seq<u8>| serialized_block(b)), serialized_block(bv[j as int]));
                assert(self.out@ =~= before + encoded@[j as int]@);
            }
            j += 1;
        }
        proof {
            assert(bv.take(bv.len() as int) =~= bv);
            lemma_flatten_blocks(bv, bv.len() as int);
            lemma_encoded_blocks_split(self.coded@, flatten(bv));
            assert(bv.take(bv.len() as int).map_values(|b: Seq<u8>| serialized_block(b)) == bv.map_values(|b: Seq<u8>| serialized_block(b)));
            let fm = flatten(bv.map_values(|b: Seq<u8>| serialized_block(b)));
            assert(encoded_blocks(flatten(bv)) == fm);
            assert(self.out@ == out0 + fm);
            assert(self.taken@ + out0 == ans_magic() + encoded_blocks(coded0));
            assert(self.coded@ == coded0);
            assert(encoded_blocks(coded0 + flatten(bv)) == encoded_blocks(coded0) + fm);
            assert(self.taken@ + (out0 + fm) =~= (self.taken@ + out0) + fm);
            assert((ans_magic() + encoded_blocks(coded0)) + fm =~= ans_magic() + (encoded_blocks(coded0) + fm));
            assert(self.taken@ + self.out@ == ans_magic() + encoded_blocks(self.coded@ + flatten(bv)));
        }
        self.coded = Ghost(self.coded@ + flatten(bv));
    }

    /// Top up a partially-filled block from a previous call first; returns how
    /// much of `data` that took.
    fn top_up(&mut self, data: &[u8]) -> (rest_start: usize)
        requires
            old(self).batch >= 1,
            !old(self).finished,
            old(self).pending@.len() < old(self).batch,
            forall|i: int| 0 <= i < old(self).pending@.len() ==> (#[trigger] old(self).pending@[i])@.len() == BLOCK,
            old(self).buf@.len() < BLOCK,
            old(self).coded@.len() as int % block_limit() == 0,
            old(self).taken@ + old(self).out@ == ans_magic() + encoded_blocks(old(self).coded@),
            old(self).written@ == old(self).coded@ + flatten(views(old(self).pending@)) + old(self).buf@ + data@,
        ensures
            final(self).batch >= 1,
            !final(self).finished,
            final(self).pending@.len() < final(self).batch,
            forall|i: int| 0 <= i < final(self).pending@.len() ==> (#[trigger] final(self).pending@[i])@.len() == BLOCK,
            final(self).buf@.len() < BLOCK,
            final(self).coded@.len() as int % block_limit() == 0,
            final(self).taken@ + final(self).out@ == ans_magic() + encoded_blocks(final(self).coded@),
            rest_start <= data@.len(),
            final(self).buf@.len() > 0 ==> rest_start == data@.len(),
            final(self).written == old(self).written,
            final(self).taken == old(self).taken,
            final(self).written@ == final(self).coded@ + flatten(views(final(self).pending@)) + final(self).buf@ + data@.subrange(rest_start as int, data@.len() as int),
    {
        let mut rest_start: usize = 0;
        proof {
            assert(data@.subrange(0, data@.len() as int) =~= data@);
        }
        // Top up a partially-filled block from a previous call first.
        if self.buf.len() != 0 {
            let room = BLOCK - self.buf.len();
            let take = if room < data.len() {
                room
            } else {
                data.len()
            };
            let ghost b0 = self.buf@;
            self.buf.extend_from_slice(&data[0..take]);
            rest_start = take;
            proof {
                assert(self.buf@ =~= b0 + data@.subrange(0, take as int));
                assert(self.buf@ + data@.subrange(take as int, data@.len() as int) =~= b0 + data@);
            }
            if self.buf.len() == BLOCK {
                let mut block: Vec<u8> = Vec::with_capacity(BLOCK);
                std::mem::swap(&mut block, &mut self.buf);
                let ghost pv = views(self.pending@);
                let ghost bl = block@;
                self.pending.push(block);
                proof {
                    assert(views(self.pending@) =~= pv.push(bl));
                    lemma_flatten_push(pv, bl);
                    assert(self.written@ =~= self.coded@ + flatten(views(self.pending@)) + self.buf@ + data@.subrange(rest_start as int, data@.len() as int));
                }
                if self.pending.len() >= self.batch {
                    let ghost full = views(self.pending@);
                    proof {
                        assert forall|i: int| 0 <= i < views(self.pending@).len() implies 0 < (#[trigger] views(self.pending@)[i]).len() <= block_limit() && (i < views(self.pending@).len() - 1 ==> views(self.pending@)[i].len() == block_limit()) by {}
                        assert forall|i: int| 0 <= i < full.len() implies (#[trigger] full[i]).len() == block_limit() by {}
                        lemma_whole_blocks_append(self.coded@, full);
                    }
                    self.flush_batch();
                    proof {
                        assert(flatten(views(self.pending@)) =~= Seq::<u8>::empty());
                        assert(self.written@ =~= self.coded@ + flatten(views(self.pending@)) + self.buf@ + data@.subrange(rest_start as int, data@.len() as int));
                    }
                }
            }
        }
        proof {
            assert(self.written@ =~= self.coded@ + flatten(views(self.pending@)) + self.buf@ + data@.subrange(rest_start as int, data@.len() as int));
        }
        rest_start
    }

    /// Buffer `data`, coding every batch of whole blocks as it fills.
    pub fn write(&mut self, data: &[u8]) -> (n: usize)
        requires
            old(self).wf(),
            !old(self).is_finished(),
        ensures
            final(self).wf(),
            !final(self).is_finished(),
            final(self).input() == old(self).input() + data@,
            final(self).emitted() == old(self).emitted(),
            final(self).output().is_prefix_of(encoded_stream(final(self).input())),
            n == data@.len(),
    {
        self.written = Ghost(self.written@ + data@);
        proof {
            assert(self.written@ =~= self.coded@ + flatten(views(self.pending@)) + self.buf@ + data@);
        }
        let mut rest_start = self.top_up(data);
        // Slice whole blocks straight from the input.
        while data.len() - rest_start >= BLOCK
            invariant
                rest_start <= data@.len(),
                self.batch >= 1,
                !self.finished,
                self.taken == old(self).taken,
                self.written@ == old(self).written@ + data@,
                self.pending@.len() < self.batch,
                forall|i: int| 0 <= i < self.pending@.len() ==> (#[trigger] self.pending@[i])@.len() == BLOCK,
                self.buf@.len() < BLOCK,
                self.buf@.len() > 0 ==> rest_start == data@.len(),
                self.coded@.len() as int % block_limit() == 0,
                self.written@ == self.coded@ + flatten(views(self.pending@)) + self.buf@ + data@.subrange(rest_start as int, data@.len() as int),
                self.taken@ + self.out@ == ans_magic() + encoded_blocks(self.coded@),
            decreases data@.len() - rest_start,
        {
            let block = vstd::slice::slice_to_vec(&data[rest_start..rest_start + BLOCK]);
            let ghost pv = views(self.pending@);
            let ghost bl = block@;
            self.pending.push(block);
            proof {
                assert(views(self.pending@) =~= pv.push(bl));
                lemma_flatten_push(pv, bl);
                assert(data@.subrange(rest_start as int, data@.len() as int) =~= bl + data@.subrange(rest_start + BLOCK, data@.len() as int));
                assert(self.buf@ =~= Seq::<u8>::empty());
            }
            rest_start += BLOCK;
            proof {
                assert(self.written@ =~= self.coded@ + flatten(views(self.pending@)) + self.buf@ + data@.subrange(rest_start as int, data@.len() as int));
            }
            if self.pending.len() >= self.batch {
                let ghost full = views(self.pending@);
                proof {
                    assert forall|i: int| 0 <= i < views(self.pending@).len() implies 0 < (#[trigger] views(self.pending@)[i]).len() <= block_limit() && (i < views(self.pending@).len() - 1 ==> views(self.pending@)[i].len() == block_limit()) by {}
                    assert forall|i: int| 0 <= i < full.len() implies (#[trigger] full[i]).len() == block_limit() by {}
                    lemma_whole_blocks_append(self.coded@, full);
                }
                self.flush_batch();
                proof {
                    assert(flatten(views(self.pending@)) =~= Seq::<u8>::empty());
                    assert(self.written@ =~= self.coded@ + flatten(views(self.pending@)) + self.buf@ + data@.subrange(rest_start as int, data@.len() as int));
                }
            }
        }
        // Stash whatever is left of this write for next time.
        let ghost b1 = self.buf@;
        self.buf.extend_from_slice(&data[rest_start..data.len()]);
        proof {
            assert(self.buf@ =~= b1 + data@.subrange(rest_start as int, data@.len() as int));
            assert(self.written@ =~= self.coded@ + flatten(views(self.pending@)) + self.buf@);
            let rest = flatten(views(self.pending@)) + self.buf@;
            lemma_encoded_blocks_split(self.coded@, rest);
            assert(self.written@ =~= self.coded@ + rest);
            assert(encoded_stream(self.written@) =~= (ans_magic() + encoded_blocks(self.coded@)) + (encoded_blocks(rest) + le32(0)));
        }
        data.len()
    }

    /// Flush the final block and write the end-of-stream marker. Idempotent.
    pub fn finish(&mut self)
        requires
            old(self).wf(),
        ensures
            final(self).wf(),
            final(self).is_finished(),
            final(self).input() == old(self).input(),
            final(self).emitted() == old(self).emitted(),
            final(self).output() == encoded_stream(final(self).input()),
    {
        if self.finished {
            return;
        }
        let ghost pv = views(self.pending@);
        if self.buf.len() != 0 {
            let mut block: Vec<u8> = Vec::new();
            std::mem::swap(&mut block, &mut self.buf);
            let ghost b = block@;
            self.pending.push(block);
            proof {
                assert(views(self.pending@) =~= pv.push(b));
                lemma_flatten_push(pv, b);
            }
        }
        proof {
            assert forall|i: int| 0 <= i < views(self.pending@).len() implies 0 < (#[trigger] views(self.pending@)[i]).len() <= block_limit() && (i < views(self.pending@).len() - 1 ==> views(self.pending@)[i].len() == block_limit()) by {}
            if old(self).buf@.len() == 0 {
                assert(views(self.pending@) == pv);
                assert(self.written@ =~= self.coded@ + flatten(views(self.pending@)));
            } else {
                assert(self.written@ =~= self.coded@ + flatten(views(self.pending@)));
            }
        }
        self.flush_batch();
        // EOF: a zero-length block.
        push_u32_le(&mut self.out, 0);
        self.finished = true;
        self.buf = Vec::new();
        assert(self.taken@ + self.out@ =~= encoded_stream(self.written@));
    }

    /// Whether the end-of-stream marker has been written.
    pub fn finished(&self) -> (b: bool)
        requires
            self.wf(),
        ensures
            b == self.is_finished(),
            b ==> self.output() == encoded_stream(self.input()),
    {
        self.finished
    }

    /// Hand out the coded bytes produced so far.
    pub fn take_output(&mut self) -> (r: Vec<u8>)
        requires
            old(self).wf(),
        ensures
            final(self).wf(),
            final(self).input() == old(self).input(),
            final(self).output() == old(self).output(),
            final(self).is_finished() == old(self).is_finished(),
            final(self).emitted() == old(self).output(),
            old(self).output() == old(self).emitted() + r@,
    {
        let mut r: Vec<u8> = Vec::new();
        std::mem::swap(&mut r, &mut self.out);
        self.taken = Ghost(self.taken@ + r@);
        assert(self.taken@ + self.out@ =~= old(self).taken@ + old(self).out@);
        r
    }

    /// Recover the coded bytes not yet handed out (call after [`AnsWriter::finish`]).
    pub fn into_inner(self) -> (r: Vec<u8>)
        requires
            self.wf(),
        ensures
            self.output() == self.emitted() + r@,
    {
        self.out
    }
}


// --- Streaming reader ------------------------------------------------------

/// One block as read off the wire, before decoding.
struct RawBlock {
    raw_len: usize,
    freq: [u16; 256],
    stream: Vec<u8>,
}

/// What decoding a raw block yields.
spec fn raw_result(rb: RawBlock) -> Result<Seq<u8>, AnsError> {
    decoded_block(rb.stream@, rb.raw_len as int, ints16(rb.freq@))
}

spec fn raw_results(rbs: Seq<RawBlock>) -> Seq<Result<Seq<u8>, AnsError>> {
    rbs.map_values(|rb: RawBlock| raw_result(rb))
}

/// Decode a batch of raw blocks across every core.
///
/// Calls `rayon`'s `par_iter().map(..).collect()`, which keeps the order of the
/// items; each result is `decode_block` of the raw block in the same place.
#[verifier::external_body]
fn decode_batch(raws: &Vec<RawBlock>) -> (r: Vec<Result<Vec<u8>, AnsError>>)
    ensures
        r@.len() == raws@.len(),
        forall|i: int|
            0 <= i < r@.len() ==> match #[trigger] r@[i] {
                Ok(v) => raw_result(raws@[i]) == Ok::<Seq<u8>, AnsError>(v@),
                Err(e) => raw_result(raws@[i]) == Err::<Seq<u8>, AnsError>(e),
            },
{
    raws.par_iter().map(|rb| decode_block(&rb.stream, rb.raw_len, &rb.freq)).collect()
}

/// Where the reader stands within the current block.
#[derive(Clone, Copy, PartialEq, Eq, Structural)]
enum Phase {
    BlockLen,
    SymCount,
    Table,
    StreamLen,
    Stream,
    Done,
}

/// A decoder for a stream produced by [`AnsWriter`], fed the stream piece by
/// piece (each piece exactly as long as [`AnsReader::needs`] asks), decoding a
/// batch of blocks across every core. The decoded bytes collect in an output
/// buffer that the caller drains.
pub struct AnsReader {
    phase: Phase,
    raw_len: usize,
    nsym: usize,
    freq: [u16; 256],
    stream_len: usize,
    raws: Vec<RawBlock>,
    batch: usize,
    out: Vec<u8>,
    consumed: Ghost<Seq<u8>>,
    pos: Ghost<int>,
    taken: Ghost<Seq<u8>>,
}

impl AnsReader {
    /// Every byte of the stream fed so far (the magic included).
    pub closed spec fn consumed(&self) -> Seq<u8> {
        self.consumed@
    }

    /// Every decoded byte produced so far (handed out or not).
    pub closed spec fn output(&self) -> Seq<u8> {
        self.taken@ + self.out@
    }

    /// The decoded bytes already handed out.
    pub closed spec fn emitted(&self) -> Seq<u8> {
        self.taken@
    }

    /// The end-of-stream marker has been read and every block decoded.
    pub closed spec fn is_done(&self) -> bool {
        self.phase == Phase::Done
    }

    /// How many bytes the reader takes next.
    pub closed spec fn wants(&self) -> nat {
        match self.phase {
            Phase::BlockLen => 4,
            Phase::SymCount => 2,
            Phase::Table => (3 * self.nsym) as nat,
            Phase::StreamLen => 4,
            Phase::Stream => self.stream_len as nat,
            Phase::Done => 0,
        }
    }

    pub closed spec fn wf(&self) -> bool {
        let c = self.consumed@;
        let pos = self.pos@;
        &&& self.batch >= 1
        &&& self.raws@.len() < self.batch
        &&& c.len() >= 4
        &&& c.take(4) == ans_magic()
        &&& 4 <= pos <= c.len()
        &&& (self.phase == Phase::Done ==> {
            &&& self.raws@.len() == 0
            &&& forall|s: Seq<u8>|
                extends(c, s) ==> #[trigger] decode_blocks(s, 4) == Ok::<Seq<u8>, AnsError>(
                    self.taken@ + self.out@,
                )
        })
        &&& (self.phase != Phase::Done ==> forall|s: Seq<u8>|
            extends(c, s) ==> #[trigger] decode_blocks(s, 4) == chain(
                self.taken@ + self.out@,
                raw_results(self.raws@),
                decode_blocks(s, pos),
            ))
        &&& (self.phase == Phase::BlockLen ==> c.len() == pos)
        &&& (self.phase == Phase::SymCount || self.phase == Phase::Table || self.phase
            == Phase::StreamLen || self.phase == Phase::Stream) ==> {
            &&& c.len() >= pos + 4
            &&& self.raw_len == u32_le_at(c, pos)
            &&& 0 < self.raw_len <= BLOCK
        }
        &&& (self.phase == Phase::SymCount ==> c.len() == pos + 4)
        &&& (self.phase == Phase::Table || self.phase == Phase::StreamLen || self.phase
            == Phase::Stream) ==> {
            &&& c.len() >= pos + 6
            &&& self.nsym == u16_le_at(c, pos + 4)
            &&& self.nsym <= 256
        }
        &&& (self.phase == Phase::Table ==> c.len() == pos + 6)
        &&& (self.phase == Phase::StreamLen || self.phase == Phase::Stream) ==> {
            &&& c.len() >= pos + 6 + 3 * self.nsym
            &&& ints16(self.freq@) == parse_table(c, pos + 6, self.nsym as int)
        }
        &&& (self.phase == Phase::StreamLen ==> c.len() == pos + 6 + 3 * self.nsym)
        &&& (self.phase == Phase::Stream ==> {
            &&& c.len() == pos + 10 + 3 * self.nsym
            &&& self.stream_len == u32_le_at(c, pos + 6 + 3 * self.nsym)
            &&& self.stream_len <= stream_limit()
        })
    }

    /// Start reading a stream whose first four bytes are `magic`, validating the
    /// stream magic up front.
    pub fn new(magic: &[u8]) -> (r: Result<AnsReader, AnsError>)
        requires
            magic@.len() == 4,
        ensures
            r is Ok <==> magic@ == ans_magic(),
            match r {
                Ok(rd) => {
                    &&& rd.wf()
                    &&& rd.consumed() == magic@
                    &&& rd.output() == Seq::<u8>::empty()
                    &&& rd.emitted() == Seq::<u8>::empty()
                    &&& !rd.is_done()
                },
                Err(e) => {
                    &&& e == AnsError::BadMagic
                    &&& forall|s: Seq<u8>|
                        extends(magic@, s) ==> #[trigger] decoded_stream(s) == Err::<
                            Seq<u8>,
                            AnsError,
                        >(AnsError::BadMagic)
                },
            },
    {
        if !(magic[0] == 0x41 && magic[1] == 0x4e && magic[2] == 0x53 && magic[3] == 0x32) {
            proof {
                assert forall|s: Seq<u8>| extends(magic@, s) implies #[trigger] decoded_stream(s)
                    == Err::<Seq<u8>, AnsError>(AnsError::BadMagic) by {
                    assert(s.take(4) =~= magic@);
                    if s.take(4) == ans_magic() {
                        assert(magic@[0] == ans_magic()[0]);
                        assert(magic@[1] == ans_magic()[1]);
                        assert(magic@[2] == ans_magic()[2]);
                        assert(magic@[3] == ans_magic()[3]);
                    }
                }
            }
            return Err(AnsError::BadMagic);
        }
        let threads = worker_threads();
        let batch = if threads < 1 {
            1
        } else {
            threads
        };
        let rd = AnsReader {
            phase: Phase::BlockLen,
            raw_len: 0,
            nsym: 0,
            freq: [0u16; 256],
            stream_len: 0,
            raws: Vec::new(),
            batch,
            out: Vec::new(),
            consumed: Ghost(magic@),
            pos: Ghost(4),
            taken: Ghost(Seq::empty()),
        };
        proof {
            assert(magic@ =~= ans_magic());
            assert(magic@.take(4) =~= magic@);
            assert forall|s: Seq<u8>| extends(rd.consumed@, s) implies #[trigger] decode_blocks(s, 4) == chain(
                rd.taken@ + rd.out@,
                raw_results(rd.raws@),
                decode_blocks(s, 4),
            ) by {
                assert(raw_results(rd.raws@) =~= Seq::<Result<Seq<u8>, AnsError>>::empty());
                match decode_blocks(s, 4) {
                    Ok(t) => {
                        assert(rd.taken@ + rd.out@ + t =~= t);
                    },
                    Err(_) => {},
                }
            }
        }
        Ok(rd)
    }

    /// Decode the pending batch of raw blocks in parallel and append the results
    /// in order; the first block that fails to decode ends the stream.
    fn decode_pending(&mut self) -> (r: Result<(), AnsError>)
        ensures
            final(self).phase == old(self).phase,
            final(self).raw_len == old(self).raw_len,
            final(self).nsym == old(self).nsym,
            final(self).freq == old(self).freq,
            final(self).stream_len == old(self).stream_len,
            final(self).batch == old(self).batch,
            final(self).consumed == old(self).consumed,
            final(self).pos == old(self).pos,
            final(self).taken == old(self).taken,
            old(self).out@.is_prefix_of(final(self).out@),
            r is Ok ==> final(self).raws@.len() == 0,
            r is Ok ==> forall|t: Result<Seq<u8>, AnsError>|
                #[trigger] chain(old(self).taken@ + old(self).out@, raw_results(old(self).raws@), t)
                    == chain(final(self).taken@ + final(self).out@, Seq::empty(), t),
            r matches Err(e) ==> forall|t: Result<Seq<u8>, AnsError>|
                #[trigger] chain(old(self).taken@ + old(self).out@, raw_results(old(self).raws@), t)
                    == Err::<Seq<u8>, AnsError>(e),
    {
        let mut raws: Vec<RawBlock> = Vec::new();
        std::mem::swap(&mut raws, &mut self.raws);
        let ghost rs = raw_results(raws@);
        let ghost p0 = self.taken@ + self.out@;
        let results = decode_batch(&raws);
        let mut j: usize = 0;
        assert(raws@ == old(self).raws@);
        assert(rs.skip(0) =~= rs);
        while j < results.len()
            invariant
                j <= results@.len() == raws@.len() == rs.len(),
                rs == raw_results(raws@),
                forall|i: int|
                    0 <= i < results@.len() ==> match #[trigger] results@[i] {
                        Ok(v) => raw_result(raws@[i]) == Ok::<Seq<u8>, AnsError>(v@),
                        Err(e) => raw_result(raws@[i]) == Err::<Seq<u8>, AnsError>(e),
                    },
                forall|t: Result<Seq<u8>, AnsError>|
                    #[trigger] chain(p0, rs, t) == chain(self.taken@ + self.out@, rs.skip(j as int), t),
                self.raws@.len() == 0,
                self.phase == old(self).phase,
                self.raw_len == old(self).raw_len,
                self.nsym == old(self).nsym,
                self.freq == old(self).freq,
                self.stream_len == old(self).stream_len,
                self.batch == old(self).batch,
                self.consumed == old(self).consumed,
                self.pos == old(self).pos,
                self.taken == old(self).taken,
                p0 == old(self).taken@ + old(self).out@,
                raws@ == old(self).raws@,
                old(self).out@.is_prefix_of(self.out@),
            decreases results@.len() - j,
        {
            let ghost cur = self.taken@ + self.out@;
            assert(rs.skip(j as int)[0] == rs[j as int]);
            assert(rs.skip(j as int).drop_first() =~= rs.skip(j as int + 1));
            match &results[j] {
                Ok(v) => {
                    let ghost before = self.out@;
                    self.out.extend_from_slice(v);
                    proof {
                        assert(self.out@ =~= before + v@);
                        assert(self.taken@ + self.out@ =~= cur + v@);
                        assert forall|t: Result<Seq<u8>, AnsError>| #[trigger] chain(p0, rs, t) == chain(
                            self.taken@ + self.out@,
                            rs.skip(j as int + 1),
                            t,
                        ) by {
                            assert(chain(p0, rs, t) == chain(cur, rs.skip(j as int), t));
                        }
                        assert(old(self).out@.is_prefix_of(self.out@)) by {
                            assert(self.out@.take(old(self).out@.len() as int) =~= before.take(old(self).out@.len() as int));
                        }
                    }
                },
                Err(e) => {
                    let e = *e;
                    proof {
                        assert forall|t: Result<Seq<u8>, AnsError>| #[trigger] chain(p0, rs, t) == Err::<
                            Seq<u8>,
                            AnsError,
                        >(e) by {
                            assert(chain(p0, rs, t) == chain(cur, rs.skip(j as int), t));
                        }
                        assert forall|t: Result<Seq<u8>, AnsError>| #[trigger] chain(old(self).taken@ + old(self).out@, raw_results(old(self).raws@), t) == Err::<
                            Seq<u8>,
                            AnsError,
                        >(e) by {
                            assert(chain(p0, rs, t) == Err::<Seq<u8>, AnsError>(e));
                        }
                    }
                    return Err(e);
                },
            }
            j += 1;
        }
        assert(rs.skip(j as int) =~= Seq::<Result<Seq<u8>, AnsError>>::empty());
        assert forall|t: Result<Seq<u8>, AnsError>| #[trigger] chain(old(self).taken@ + old(self).out@, raw_results(old(self).raws@), t)
            == chain(self.taken@ + self.out@, Seq::empty(), t) by {
            assert(chain(p0, rs, t) == chain(self.taken@ + self.out@, rs.skip(j as int), t));
        }
        Ok(())
    }

    fn feed_block_len(&mut self, bytes: &[u8], Ghost(c0): Ghost<Seq<u8>>) -> (r: Result<(), AnsError>)
        requires
            old(self).batch >= 1,
            old(self).raws@.len() < old(self).batch,
            old(self).consumed@ == c0 + bytes@,
            c0.len() >= 4,
            old(self).consumed@.take(4) == ans_magic(),
            4 <= old(self).pos@ <= c0.len(),
            forall|s: Seq<u8>|
                extends(old(self).consumed@, s) ==> #[trigger] decode_blocks(s, 4) == chain(
                    old(self).taken@ + old(self).out@,
                    raw_results(old(self).raws@),
                    decode_blocks(s, old(self).pos@),
                ) && decoded_stream(s) == decode_blocks(s, 4),
            old(self).phase == Phase::BlockLen,
            c0.len() == old(self).pos@,
            bytes@.len() == 4,
        ensures
            final(self).consumed == old(self).consumed,
            final(self).taken == old(self).taken,
            old(self).out@.is_prefix_of(final(self).out@),
            r is Ok ==> final(self).wf(),
            r is Err ==> forall|s: Seq<u8>|
                extends(final(self).consumed@, s) ==> #[trigger] decoded_stream(s) is Err,
    {
        let ghost c = self.consumed@;
        let ghost pos = self.pos@;
        let raw_len = read_u32_le(bytes, 0);
        proof {
            lemma_fresh_bytes(c0, bytes@);
            assert forall|s: Seq<u8>| extends(c, s) implies u32_le_at(s, pos) == raw_len by {
                lemma_block_ext(c, s, pos);
            }
        }
        if raw_len == 0 {
            // EOF marker: decode whatever is still pending.
            let ghost p0 = self.taken@ + self.out@;
            let ghost rs0 = raw_results(self.raws@);
            let d = self.decode_pending();
            proof {
                assert forall|s: Seq<u8>| extends(c, s) implies #[trigger] decode_blocks(s, pos) == Ok::<Seq<u8>, AnsError>(Seq::empty()) by {
                    lemma_block_ext(c, s, pos);
                }
            }
            match d {
                Err(e) => {
                    proof {
                        assert forall|s: Seq<u8>| extends(self.consumed@, s) implies #[trigger] decoded_stream(s) is Err by {
                            assert(chain(p0, rs0, decode_blocks(s, pos)) == Err::<Seq<u8>, AnsError>(e));
                        }
                    }
                    return Err(e);
                },
                Ok(()) => {},
            }
            self.phase = Phase::Done;
            proof {
                assert forall|s: Seq<u8>| extends(self.consumed@, s) implies #[trigger] decode_blocks(s, 4) == Ok::<Seq<u8>, AnsError>(self.taken@ + self.out@) by {
                    assert(chain(p0, rs0, decode_blocks(s, pos)) == chain(self.taken@ + self.out@, Seq::empty(), decode_blocks(s, pos)));
                    assert(self.taken@ + self.out@ + Seq::<u8>::empty() =~= self.taken@ + self.out@);
                }
            }
            return Ok(());
        }
        if raw_len as usize > BLOCK {
            proof {
                assert forall|s: Seq<u8>| extends(self.consumed@, s) implies #[trigger] decoded_stream(s) is Err by {
                    lemma_block_ext(c, s, pos);
                    lemma_chain_prefix(self.taken@ + self.out@, raw_results(self.raws@), decode_blocks(s, pos));
                }
            }
            return Err(AnsError::BlockTooLong);
        }
        self.raw_len = raw_len as usize;
        self.phase = Phase::SymCount;
        Ok(())
    }

    fn feed_sym_count(&mut self, bytes: &[u8], Ghost(c0): Ghost<Seq<u8>>) -> (r: Result<(), AnsError>)
        requires
            old(self).batch >= 1,
            old(self).raws@.len() < old(self).batch,
            old(self).consumed@ == c0 + bytes@,
            c0.len() >= 4,
            old(self).consumed@.take(4) == ans_magic(),
            4 <= old(self).pos@ <= c0.len(),
            forall|s: Seq<u8>|
                extends(old(self).consumed@, s) ==> #[trigger] decode_blocks(s, 4) == chain(
                    old(self).taken@ + old(self).out@,
                    raw_results(old(self).raws@),
                    decode_blocks(s, old(self).pos@),
                ) && decoded_stream(s) == decode_blocks(s, 4),
            old(self).phase == Phase::SymCount,
            c0.len() == old(self).pos@ + 4,
            old(self).raw_len == u32_le_at(c0, old(self).pos@),
            0 < old(self).raw_len <= BLOCK,
            bytes@.len() == 2,
        ensures
            final(self).consumed == old(self).consumed,
            final(self).taken == old(self).taken,
            old(self).out@.is_prefix_of(final(self).out@),
            r is Ok ==> final(self).wf(),
            r is Err ==> forall|s: Seq<u8>|
                extends(final(self).consumed@, s) ==> #[trigger] decoded_stream(s) is Err,
    {
        let ghost c = self.consumed@;
        let ghost pos = self.pos@;
        proof {
            lemma_fresh_bytes(c0, bytes@);
            assert(u32_le_at(c, pos) == u32_le_at(c0, pos));
        }
        let nsym = (bytes[0] as u16 | ((bytes[1] as u16) << 8)) as usize;
        proof {
            let b0 = bytes@[0];
            let b1 = bytes@[1];
            assert((b0 as u16 | ((b1 as u16) << 8u16)) == b0 as u16 + b1 as u16 * 256) by (bit_vector);
            assert(nsym == u16_le_at(c, pos + 4));
        }
        if nsym > 256 {
            proof {
                assert forall|s: Seq<u8>| extends(self.consumed@, s) implies #[trigger] decoded_stream(s) is Err by {
                    lemma_block_ext(c, s, pos);
                    lemma_chain_prefix(self.taken@ + self.out@, raw_results(self.raws@), decode_blocks(s, pos));
                }
            }
            return Err(AnsError::TooManySymbols);
        }
        self.nsym = nsym;
        self.phase = Phase::Table;
        Ok(())
    }

    fn feed_table(&mut self, bytes: &[u8], Ghost(c0): Ghost<Seq<u8>>) -> (r: Result<(), AnsError>)
        requires
            old(self).batch >= 1,
            old(self).raws@.len() < old(self).batch,
            old(self).consumed@ == c0 + bytes@,
            c0.len() >= 4,
            old(self).consumed@.take(4) == ans_magic(),
            4 <= old(self).pos@ <= c0.len(),
            forall|s: Seq<u8>|
                extends(old(self).consumed@, s) ==> #[trigger] decode_blocks(s, 4) == chain(
                    old(self).taken@ + old(self).out@,
                    raw_results(old(self).raws@),
                    decode_blocks(s, old(self).pos@),
                ) && decoded_stream(s) == decode_blocks(s, 4),
            old(self).phase == Phase::Table,
            c0.len() == old(self).pos@ + 6,
            old(self).raw_len == u32_le_at(c0, old(self).pos@),
            0 < old(self).raw_len <= BLOCK,
            old(self).nsym == u16_le_at(c0, old(self).pos@ + 4),
            old(self).nsym <= 256,
            bytes@.len() == 3 * old(self).nsym,
        ensures
            final(self).consumed == old(self).consumed,
            final(self).taken == old(self).taken,
            old(self).out@.is_prefix_of(final(self).out@),
            r is Ok ==> final(self).wf(),
            r is Err ==> forall|s: Seq<u8>|
                extends(final(self).consumed@, s) ==> #[trigger] decoded_stream(s) is Err,
    {
        let ghost c = self.consumed@;
        let ghost pos = self.pos@;
        proof {
            lemma_fresh_bytes(c0, bytes@);
            assert(u32_le_at(c, pos) == u32_le_at(c0, pos));
            assert(u16_le_at(c, pos + 4) == u16_le_at(c0, pos + 4));
        }
        let mut freq = [0u16; 256];
        let mut k: usize = 0;
        assert(ints16(freq@) =~= parse_table(c, pos + 6, 0));
        while k < self.nsym
            invariant
                k <= self.nsym <= 256,
                bytes@.len() == 3 * self.nsym,
                c == c0 + bytes@,
                c0.len() == pos + 6,
                ints16(freq@) == parse_table(c, pos + 6, k as int),
            decreases self.nsym - k,
        {
            let sym = bytes[3 * k] as usize;
            let f = (bytes[3 * k + 1] as u16) | ((bytes[3 * k + 2] as u16) << 8);
            proof {
                let b0 = bytes@[3 * k + 1];
                let b1 = bytes@[3 * k + 2];
                assert((b0 as u16 | ((b1 as u16) << 8u16)) == b0 as u16 + b1 as u16 * 256) by (bit_vector);
                assert(c[pos + 6 + 3 * k] == bytes@[3 * k as int]);
                assert(c[pos + 6 + 3 * k + 1] == bytes@[3 * k + 1]);
                assert(c[pos + 6 + 3 * k + 2] == bytes@[3 * k + 2]);
            }
            freq[sym] = f;
            proof {
                assert(ints16(freq@) =~= parse_table(c, pos + 6, k as int + 1));
            }
            k += 1;
        }
        self.freq = freq;
        self.phase = Phase::StreamLen;
        Ok(())
    }

    fn feed_stream_len(&mut self, bytes: &[u8], Ghost(c0): Ghost<Seq<u8>>) -> (r: Result<(), AnsError>)
        requires
            old(self).batch >= 1,
            old(self).raws@.len() < old(self).batch,
            old(self).consumed@ == c0 + bytes@,
            c0.len() >= 4,
            old(self).consumed@.take(4) == ans_magic(),
            4 <= old(self).pos@ <= c0.len(),
            forall|s: Seq<u8>|
                extends(old(self).consumed@, s) ==> #[trigger] decode_blocks(s, 4) == chain(
                    old(self).taken@ + old(self).out@,
                    raw_results(old(self).raws@),
                    decode_blocks(s, old(self).pos@),
                ) && decoded_stream(s) == decode_blocks(s, 4),
            old(self).phase == Phase::StreamLen,
            c0.len() == old(self).pos@ + 6 + 3 * old(self).nsym,
            old(self).raw_len == u32_le_at(c0, old(self).pos@),
            0 < old(self).raw_len <= BLOCK,
            old(self).nsym == u16_le_at(c0, old(self).pos@ + 4),
            old(self).nsym <= 256,
            ints16(old(self).freq@) == parse_table(c0, old(self).pos@ + 6, old(self).nsym as int),
            bytes@.len() == 4,
        ensures
            final(self).consumed == old(self).consumed,
            final(self).taken == old(self).taken,
            old(self).out@.is_prefix_of(final(self).out@),
            r is Ok ==> final(self).wf(),
            r is Err ==> forall|s: Seq<u8>|
                extends(final(self).consumed@, s) ==> #[trigger] decoded_stream(s) is Err,
    {
        let ghost c = self.consumed@;
        let ghost pos = self.pos@;
        let stream_len = read_u32_le(bytes, 0);
        proof {
            lemma_fresh_bytes(c0, bytes@);
            assert(u32_le_at(c, pos) == u32_le_at(c0, pos));
            assert(u16_le_at(c, pos + 4) == u16_le_at(c0, pos + 4));
            lemma_parse_table_prefix(c0, bytes@, pos + 6, self.nsym as int);
        }
        if stream_len as usize > 2 * BLOCK + 64 {
            proof {
                assert forall|s: Seq<u8>| extends(self.consumed@, s) implies #[trigger] decoded_stream(s) is Err by {
                    lemma_block_ext(c, s, pos);
                    lemma_chain_prefix(self.taken@ + self.out@, raw_results(self.raws@), decode_blocks(s, pos));
                }
            }
            return Err(AnsError::StreamTooLong);
        }
        self.stream_len = stream_len as usize;
        self.phase = Phase::Stream;
        Ok(())
    }

    fn feed_stream(&mut self, bytes: &[u8], Ghost(c0): Ghost<Seq<u8>>) -> (r: Result<(), AnsError>)
        requires
            old(self).batch >= 1,
            old(self).raws@.len() < old(self).batch,
            old(self).consumed@ == c0 + bytes@,
            c0.len() >= 4,
            old(self).consumed@.take(4) == ans_magic(),
            4 <= old(self).pos@ <= c0.len(),
            forall|s: Seq<u8>|
                extends(old(self).consumed@, s) ==> #[trigger] decode_blocks(s, 4) == chain(
                    old(self).taken@ + old(self).out@,
                    raw_results(old(self).raws@),
                    decode_blocks(s, old(self).pos@),
                ) && decoded_stream(s) == decode_blocks(s, 4),
            old(self).phase == Phase::Stream,
            c0.len() == old(self).pos@ + 10 + 3 * old(self).nsym,
            old(self).raw_len == u32_le_at(c0, old(self).pos@),
            0 < old(self).raw_len <= BLOCK,
            old(self).nsym == u16_le_at(c0, old(self).pos@ + 4),
            old(self).nsym <= 256,
            ints16(old(self).freq@) == parse_table(c0, old(self).pos@ + 6, old(self).nsym as int),
            old(self).stream_len == u32_le_at(c0, old(self).pos@ + 6 + 3 * old(self).nsym),
            old(self).stream_len <= stream_limit(),
            bytes@.len() == old(self).stream_len,
        ensures
            final(self).consumed == old(self).consumed,
            final(self).taken == old(self).taken,
            old(self).out@.is_prefix_of(final(self).out@),
            r is Ok ==> final(self).wf(),
            r is Err ==> forall|s: Seq<u8>|
                extends(final(self).consumed@, s) ==> #[trigger] decoded_stream(s) is Err,
    {
        let ghost c = self.consumed@;
        let ghost pos = self.pos@;
        let ghost spos = pos + 6 + 3 * self.nsym;
        proof {
            lemma_fresh_bytes(c0, bytes@);
            assert(u32_le_at(c, pos) == u32_le_at(c0, pos));
            assert(u16_le_at(c, pos + 4) == u16_le_at(c0, pos + 4));
            assert(u32_le_at(c, spos) == u32_le_at(c0, spos));
            lemma_parse_table_prefix(c0, bytes@, pos + 6, self.nsym as int);
            assert(c.subrange(spos + 4, c.len() as int) =~= bytes@);
        }
        let stream = vstd::slice::slice_to_vec(bytes);
        let rb = RawBlock { raw_len: self.raw_len, freq: self.freq, stream };
        let ghost p0 = self.taken@ + self.out@;
        let ghost rs0 = raw_results(self.raws@);
        let ghost r1 = raw_result(rb);
        self.raws.push(rb);
        self.pos = Ghost(c.len() as int);
        self.phase = Phase::BlockLen;
        proof {
            assert(raw_results(self.raws@) =~= rs0.push(r1));
            assert forall|s: Seq<u8>| extends(c, s) implies #[trigger] decode_blocks(s, 4) == chain(
                p0,
                raw_results(self.raws@),
                decode_blocks(s, c.len() as int),
            ) by {
                lemma_block_ext(c, s, pos);
                lemma_chain_push(p0, rs0, r1, decode_blocks(s, c.len() as int));
            }
        }
        if self.raws.len() >= self.batch {
            let d = self.decode_pending();
            match d {
                Err(e) => {
                    proof {
                        assert forall|s: Seq<u8>| extends(self.consumed@, s) implies #[trigger] decoded_stream(s) is Err by {
                            assert(chain(p0, raw_results(old(self).raws@.push(rb)), decode_blocks(s, c.len() as int)) == Err::<Seq<u8>, AnsError>(e));
                        }
                    }
                    return Err(e);
                },
                Ok(()) => {},
            }
        }
        Ok(())
    }

    /// Take the next piece of the stream, exactly [`AnsReader::needs`] bytes long.
    pub fn feed(&mut self, bytes: &[u8]) -> (r: Result<(), AnsError>)
        requires
            old(self).wf(),
            !old(self).is_done(),
            bytes@.len() == old(self).wants(),
        ensures
            final(self).consumed() == old(self).consumed() + bytes@,
            final(self).emitted() == old(self).emitted(),
            r is Ok ==> final(self).wf(),
            r is Ok ==> old(self).output().is_prefix_of(final(self).output()),
            r is Ok && final(self).is_done() ==> decoded_stream(final(self).consumed()) == Ok::<
                Seq<u8>,
                AnsError,
            >(final(self).output()),
            r is Ok ==> forall|s: Seq<u8>|
                extends(final(self).consumed(), s) && #[trigger] decoded_stream(s) is Ok
                    ==> final(self).output().is_prefix_of(decoded_stream(s)->Ok_0),
            r is Err ==> forall|s: Seq<u8>|
                extends(final(self).consumed(), s) ==> #[trigger] decoded_stream(s) is Err,
    {
        let ghost c0 = self.consumed@;
        let ghost pos = self.pos@;
        let ghost p0 = self.taken@ + self.out@;
        let ghost rs0 = raw_results(self.raws@);
        self.consumed = Ghost(c0 + bytes@);
        let ghost c = self.consumed@;
        proof {
            lemma_fresh_bytes(c0, bytes@);
            assert(c.take(4) =~= c0.take(4));
            assert forall|s: Seq<u8>| extends(c, s) implies #[trigger] decode_blocks(s, 4) == chain(
                p0,
                rs0,
                decode_blocks(s, pos),
            ) && decoded_stream(s) == decode_blocks(s, 4) by {
                lemma_extends_shorter(c0, bytes@, s);
                lemma_extends_stream(c, s);
            }
        }
        let r = match self.phase {
            Phase::BlockLen => self.feed_block_len(bytes, Ghost(c0)),
            Phase::SymCount => self.feed_sym_count(bytes, Ghost(c0)),
            Phase::Table => self.feed_table(bytes, Ghost(c0)),
            Phase::StreamLen => self.feed_stream_len(bytes, Ghost(c0)),
            _ => self.feed_stream(bytes, Ghost(c0)),
        };
        proof {
            if r is Ok {
                assert forall|s: Seq<u8>| extends(self.consumed@, s) && #[trigger] decoded_stream(s) is Ok
                    implies (self.taken@ + self.out@).is_prefix_of(decoded_stream(s)->Ok_0) by {
                    lemma_extends_stream(self.consumed@, s);
                    if self.phase != Phase::Done {
                        lemma_chain_prefix(self.taken@ + self.out@, raw_results(self.raws@), decode_blocks(s, self.pos@));
                    }
                }
                if self.phase == Phase::Done {
                    assert(extends(self.consumed@, self.consumed@)) by {
                        assert(self.consumed@.take(self.consumed@.len() as int) =~= self.consumed@);
                    }
                    lemma_extends_stream(self.consumed@, self.consumed@);
                }
            }
        }
        r
    }

    /// How many bytes the reader takes next.
    pub fn needs(&self) -> (n: usize)
        requires
            self.wf(),
        ensures
            n == self.wants(),
    {
        match self.phase {
            Phase::BlockLen => 4,
            Phase::SymCount => 2,
            Phase::Table => 3 * self.nsym,
            Phase::StreamLen => 4,
            Phase::Stream => self.stream_len,
            Phase::Done => 0,
        }
    }

    /// Whether the end-of-stream marker has been read and every block decoded.
    pub fn done(&self) -> (b: bool)
        ensures
            b == self.is_done(),
    {
        self.phase == Phase::Done
    }

    /// Hand out the decoded bytes produced so far.
    pub fn take_output(&mut self) -> (r: Vec<u8>)
        requires
            old(self).wf(),
        ensures
            final(self).wf(),
            final(self).consumed() == old(self).consumed(),
            final(self).output() == old(self).output(),
            final(self).is_done() == old(self).is_done(),
            final(self).wants() == old(self).wants(),
            final(self).emitted() == old(self).output(),
            old(self).output() == old(self).emitted() + r@,
    {
        let mut r: Vec<u8> = Vec::new();
        std::mem::swap(&mut r, &mut self.out);
        self.taken = Ghost(self.taken@ + r@);
        assert(self.taken@ + self.out@ =~= old(self).taken@ + old(self).out@);
        r
    }
}

/// A finished writer's output is the whole stream of what was written.
pub proof fn lemma_finished_writer(w: &AnsWriter)
    requires
        w.wf(),
        w.is_finished(),
    ensures
        w.output() == encoded_stream(w.input()),
{
}

/// A reader that has reached the end marker of a stream that the writer produced
/// for `data` (fed any prefix of it that takes it there) has decoded exactly `data`.
pub proof fn lemma_reader_decodes_writer(rd: &AnsReader, data: Seq<u8>)
    requires
        rd.wf(),
        rd.is_done(),
        extends(rd.consumed(), encoded_stream(data)),
    ensures
        rd.output() == data,
{
    lemma_stream_roundtrip(data);
    lemma_extends_stream(rd.consumed(), encoded_stream(data));
}

} // verus!
