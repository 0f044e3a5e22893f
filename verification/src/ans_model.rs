//! The mathematical model of the rANS entropy coder: symbol statistics, the
//! quantized frequency table, and the facts about them that the coder relies on.
use vstd::arithmetic::div_mod::{
    lemma_div_denominator, lemma_fundamental_div_mod, lemma_fundamental_div_mod_converse,
};
use vstd::arithmetic::power2::{lemma2_to64, lemma_pow2_adds, lemma_pow2_pos, pow2};
use vstd::prelude::*;

verus! {

/// Probability resolution of every frequency table.
pub open spec fn scale() -> int {
    4096
}

/// Number of occurrences of byte `b` in `s`.
pub open spec fn count_of(s: Seq<u8>, b: int) -> nat
    decreases s.len(),
{
    if s.len() == 0 {
        0
    } else {
        count_of(s.drop_last(), b) + (if s.last() as int == b {
            1nat
        } else {
            0nat
        })
    }
}

/// The byte histogram of `s`: entry `b` is the number of times `b` occurs.
pub open spec fn histogram_of(s: Seq<u8>) -> Seq<int> {
    Seq::new(256, |b: int| count_of(s, b) as int)
}

/// Sum of the first `k` entries of `f`.
pub open spec fn sum_to(f: Seq<int>, k: int) -> int
    decreases k,
{
    if k <= 0 {
        0
    } else {
        sum_to(f, k - 1) + f[k - 1]
    }
}

/// Widening views of the fixed-width tables.
pub open spec fn ints32(a: Seq<u32>) -> Seq<int> {
    Seq::new(a.len(), |i: int| a[i] as int)
}

pub open spec fn ints16(a: Seq<u16>) -> Seq<int> {
    Seq::new(a.len(), |i: int| a[i] as int)
}

/// A symbol's proportional share of `scale()`, floored, and lifted to at least 1
/// when the symbol occurs at all.
pub open spec fn floor_share(c: int, total: int) -> int {
    if c == 0 {
        0
    } else {
        let f = c * scale() / total;
        if f < 1 {
            1
        } else {
            f
        }
    }
}

pub open spec fn floors(c: Seq<int>, total: int) -> Seq<int> {
    Seq::new(c.len(), |i: int| floor_share(c[i], total))
}

/// Scanning the first `k` entries, the first index holding the largest value
/// (strictly above the running best, which starts at 0), with that value.
/// The index is -1 when no entry is positive.
pub open spec fn first_max(f: Seq<int>, k: int) -> (int, int)
    decreases k,
{
    if k <= 0 {
        (-1, 0)
    } else {
        let (bi, bf) = first_max(f, k - 1);
        if f[k - 1] > bf {
            (k - 1, f[k - 1])
        } else {
            (bi, bf)
        }
    }
}

/// Among the first `k` entries that exceed 1, the last one holding the largest
/// value, with that value.
pub open spec fn last_max_above_one(f: Seq<int>, k: int) -> Option<(int, int)>
    decreases k,
{
    if k <= 0 {
        None
    } else {
        let r = last_max_above_one(f, k - 1);
        if f[k - 1] > 1 && (match r {
            None => true,
            Some((_, v)) => f[k - 1] >= v,
        }) {
            Some((k - 1, f[k - 1]))
        } else {
            r
        }
    }
}

pub open spec fn abs(x: int) -> int {
    if x < 0 {
        -x
    } else {
        x
    }
}

/// Move the table `diff` units toward the target total: each unit goes to (or
/// is taken from) the currently largest entry; a unit is only taken from an
/// entry that can spare it.
pub open spec fn nudge(f: Seq<int>, diff: int) -> Seq<int>
    decreases abs(diff),
{
    if diff == 0 {
        f
    } else if diff > 0 {
        let bi = first_max(f, f.len() as int).0;
        if 0 <= bi < f.len() {
            nudge(f.update(bi, f[bi] + 1), diff - 1)
        } else {
            f
        }
    } else {
        match last_max_above_one(f, f.len() as int) {
            Some((idx, _)) => nudge(f.update(idx, f[idx] - 1), diff + 1),
            None => f,
        }
    }
}

/// The quantized frequency table of a histogram `c`.
pub open spec fn normalized(c: Seq<int>) -> Seq<int> {
    let total = sum_to(c, c.len() as int);
    if total == 0 {
        Seq::new(c.len(), |i: int| 0int)
    } else {
        let fl = floors(c, total);
        nudge(fl, scale() - sum_to(fl, fl.len() as int))
    }
}

/// A frequency table the coder can use: 256 entries summing to `scale()`.
pub open spec fn valid_table(f: Seq<int>) -> bool {
    &&& f.len() == 256
    &&& (forall|i: int| 0 <= i < 256 ==> 0 <= #[trigger] f[i] <= scale())
    &&& sum_to(f, 256) == scale()
}

// --- Lemmas about sums -------------------------------------------------------

pub proof fn lemma_sum_update(f: Seq<int>, k: int, i: int, v: int)
    requires
        0 <= i < f.len(),
        k <= f.len(),
    ensures
        sum_to(f.update(i, v), k) == sum_to(f, k) + (if i < k {
            v - f[i]
        } else {
            0
        }),
    decreases k,
{
    if k > 0 {
        lemma_sum_update(f, k - 1, i, v);
    }
}

pub proof fn lemma_sum_nonneg_elem_le(f: Seq<int>, k: int, i: int)
    requires
        0 <= i < k <= f.len(),
        forall|j: int| 0 <= j < k ==> f[j] >= 0,
    ensures
        f[i] <= sum_to(f, k),
        sum_to(f, k) >= 0,
    decreases k,
{
    lemma_sum_nonneg(f, k - 1);
    if i < k - 1 {
        lemma_sum_nonneg_elem_le(f, k - 1, i);
    }
}

pub proof fn lemma_sum_nonneg(f: Seq<int>, k: int)
    requires
        k <= f.len(),
        forall|j: int| 0 <= j < k ==> f[j] >= 0,
    ensures
        sum_to(f, k) >= 0,
    decreases k,
{
    if k > 0 {
        lemma_sum_nonneg(f, k - 1);
    }
}

pub proof fn lemma_sum_bounded(f: Seq<int>, k: int, b: int)
    requires
        0 <= k <= f.len(),
        forall|j: int| 0 <= j < k ==> f[j] <= b,
    ensures
        sum_to(f, k) <= k * b,
    decreases k,
{
    if k > 0 {
        lemma_sum_bounded(f, k - 1, b);
        assert(f[k - 1] <= b);
        assert((k - 1) * b + b == k * b) by (nonlinear_arith);
    } else {
        assert(k * b == 0) by (nonlinear_arith)
            requires
                k == 0,
        ;
    }
}

pub proof fn lemma_sum_monotone(f: Seq<int>, j: int, k: int)
    requires
        0 <= j <= k <= f.len(),
        forall|i: int| 0 <= i < k ==> f[i] >= 0,
    ensures
        sum_to(f, j) <= sum_to(f, k),
    decreases k,
{
    if j < k {
        lemma_sum_monotone(f, j, k - 1);
    }
}

pub proof fn lemma_sum_positive_has_positive(f: Seq<int>, k: int) -> (w: int)
    requires
        0 <= k <= f.len(),
        sum_to(f, k) > 0,
    ensures
        0 <= w < k,
        f[w] > 0,
    decreases k,
{
    if sum_to(f, k - 1) > 0 {
        lemma_sum_positive_has_positive(f, k - 1)
    } else {
        k - 1
    }
}

// --- Lemmas about the scans --------------------------------------------------

pub proof fn lemma_first_max(f: Seq<int>, k: int)
    requires
        0 <= k <= f.len(),
    ensures
        ({
            let (bi, bf) = first_max(f, k);
            &&& bf >= 0
            &&& (bi == -1 ==> bf == 0 && forall|j: int| 0 <= j < k ==> f[j] <= 0)
            &&& (bi != -1 ==> 0 <= bi < k && bf == f[bi] && bf > 0)
            &&& forall|j: int| 0 <= j < k ==> f[j] <= bf
        }),
    decreases k,
{
    if k > 0 {
        lemma_first_max(f, k - 1);
    }
}

pub proof fn lemma_last_max_above_one(f: Seq<int>, k: int)
    requires
        0 <= k <= f.len(),
    ensures
        last_max_above_one(f, k) is None ==> forall|j: int| 0 <= j < k ==> f[j] <= 1,
        last_max_above_one(f, k) matches Some((idx, v)) ==> 0 <= idx < k && f[idx] == v && v > 1,
    decreases k,
{
    if k > 0 {
        lemma_last_max_above_one(f, k - 1);
    }
}

// --- The normalization invariant ---------------------------------------------

/// What holds of the table at every step of the nudging loop for histogram `c`.
pub open spec fn nudge_inv(c: Seq<int>, f: Seq<int>, diff: int) -> bool {
    &&& c.len() == 256
    &&& f.len() == 256
    &&& sum_to(f, 256) + diff == scale()
    &&& (exists|w: int| 0 <= w < 256 && c[w] > 0)
    &&& forall|i: int|
        0 <= i < 256 ==> (if c[i] == 0 {
            #[trigger] f[i] == 0
        } else {
            1 <= f[i] <= scale()
        })
}

/// One nudging step keeps the invariant and moves `diff` toward zero.
pub proof fn lemma_nudge_step(c: Seq<int>, f: Seq<int>, diff: int)
    requires
        nudge_inv(c, f, diff),
        diff != 0,
    ensures
        diff > 0 ==> ({
            let bi = first_max(f, 256).0;
            &&& 0 <= bi < 256
            &&& f[bi] < scale()
            &&& nudge_inv(c, f.update(bi, f[bi] + 1), diff - 1)
        }),
        diff < 0 ==> ({
            &&& last_max_above_one(f, 256) is Some
            &&& (last_max_above_one(f, 256) matches Some((idx, v)) ==> nudge_inv(c, f.update(idx, v - 1), diff + 1))
        }),
{
    lemma_first_max(f, 256);
    lemma_last_max_above_one(f, 256);
    let w = choose|w: int| 0 <= w < 256 && c[w] > 0;
    assert(f[w] >= 1);
    if diff > 0 {
        let bi = first_max(f, 256).0;
        assert(bi != -1);
        lemma_sum_nonneg_elem_le(f, 256, bi);
        let g = f.update(bi, f[bi] + 1);
        lemma_sum_update(f, 256, bi, f[bi] + 1);
        assert forall|i: int| 0 <= i < 256 implies (if c[i] == 0 {
            #[trigger] g[i] == 0
        } else {
            1 <= g[i] <= scale()
        }) by {
            if i == bi {
                if c[i] == 0 {
                    assert(f[i] == 0);
                }
            }
        }
    } else {
        if last_max_above_one(f, 256) is None {
            lemma_sum_bounded(f, 256, 1);
            assert(false);
        }
        let (idx, v) = last_max_above_one(f, 256).unwrap();
        let g = f.update(idx, v - 1);
        lemma_sum_update(f, 256, idx, v - 1);
        assert forall|i: int| 0 <= i < 256 implies (if c[i] == 0 {
            #[trigger] g[i] == 0
        } else {
            1 <= g[i] <= scale()
        }) by {
            if i == idx {
                if c[i] == 0 {
                    assert(f[i] == 0);
                }
            }
        }
    }
}

pub proof fn lemma_nudge(c: Seq<int>, f: Seq<int>, diff: int)
    requires
        nudge_inv(c, f, diff),
    ensures
        nudge_inv(c, nudge(f, diff), 0),
    decreases abs(diff),
{
    if diff != 0 {
        lemma_nudge_step(c, f, diff);
        lemma_last_max_above_one(f, 256);
        if diff > 0 {
            let bi = first_max(f, 256).0;
            assert(nudge(f, diff) == nudge(f.update(bi, f[bi] + 1), diff - 1));
            lemma_nudge(c, f.update(bi, f[bi] + 1), diff - 1);
        } else {
            let (idx, v) = last_max_above_one(f, 256).unwrap();
            assert(nudge(f, diff) == nudge(f.update(idx, f[idx] - 1), diff + 1));
            lemma_nudge(c, f.update(idx, v - 1), diff + 1);
        }
    }
}

/// The starting floors satisfy the nudging invariant.
pub proof fn lemma_floors_inv(c: Seq<int>)
    requires
        c.len() == 256,
        forall|i: int| 0 <= i < 256 ==> c[i] >= 0,
        sum_to(c, 256) > 0,
    ensures
        ({
            let fl = floors(c, sum_to(c, 256));
            nudge_inv(c, fl, scale() - sum_to(fl, 256))
        }),
{
    let total = sum_to(c, 256);
    let fl = floors(c, total);
    let w = lemma_sum_positive_has_positive(c, 256);
    assert forall|i: int| 0 <= i < 256 implies (if c[i] == 0 {
        #[trigger] fl[i] == 0
    } else {
        1 <= fl[i] <= scale()
    }) by {
        if c[i] != 0 {
            lemma_sum_nonneg_elem_le(c, 256, i);
            let ci = c[i];
            assert(ci * 4096 / total <= 4096) by (nonlinear_arith)
                requires
                    0 < ci <= total,
            ;
        }
    }
}

/// The quantized table of any non-empty histogram sums to exactly `scale()`,
/// keeps every occurring symbol at a frequency of at least 1, and gives every
/// absent symbol frequency 0.
pub proof fn lemma_normalized(c: Seq<int>)
    requires
        c.len() == 256,
        forall|i: int| 0 <= i < 256 ==> c[i] >= 0,
        sum_to(c, 256) > 0,
    ensures
        valid_table(normalized(c)),
        forall|i: int| 0 <= i < 256 ==> (#[trigger] normalized(c)[i] > 0 <==> c[i] > 0),
{
    let total = sum_to(c, 256);
    let fl = floors(c, total);
    lemma_floors_inv(c);
    lemma_nudge(c, fl, scale() - sum_to(fl, 256));
}


// --- The coder --------------------------------------------------------------

/// Lower bound of the coder state interval.
pub open spec fn state_lo() -> int {
    0x80_0000
}

/// Exclusive upper bound of the coder state interval (`state_lo() * 256`).
pub open spec fn state_hi() -> int {
    0x8000_0000
}

/// Renormalization threshold of a symbol of frequency `f`.
pub open spec fn renorm_bound(f: int) -> int {
    524288 * f
}

/// Encoder-side renormalization: emit low bytes of `x` until it drops below
/// `xmax`; yields the emitted bytes (in emission order) and the final state.
pub open spec fn renorm(x: int, xmax: int) -> (Seq<u8>, int)
    decreases x,
{
    if xmax > 0 && x >= xmax && x > 0 {
        let r = renorm(x / 256, xmax);
        (seq![(x % 256) as u8] + r.0, r.1)
    } else {
        (Seq::empty(), x)
    }
}

/// The rANS coding function `C(s, y)`.
pub open spec fn code(y: int, f: int, start: int) -> int {
    (y / f) * scale() + y % f + start
}

/// Encoder lane states after encoding symbols `i..` (last-to-first).
pub open spec fn enc_states(data: Seq<u8>, freq: Seq<int>, i: int) -> Seq<int>
    decreases data.len() - i,
{
    if i >= data.len() {
        seq![state_lo(), state_lo(), state_lo(), state_lo()]
    } else {
        let st = enc_states(data, freq, i + 1);
        let l = i % 4;
        let s = data[i] as int;
        let r = renorm(st[l], renorm_bound(freq[s]));
        st.update(l, code(r.1, freq[s], sum_to(freq, s)))
    }
}

/// Bytes emitted while encoding symbol `i`, in emission order.
pub open spec fn enc_emit(data: Seq<u8>, freq: Seq<int>, i: int) -> Seq<u8> {
    let s = data[i] as int;
    renorm(enc_states(data, freq, i + 1)[i % 4], renorm_bound(freq[s])).0
}

/// The stream bytes that the decoder consumes for symbols `i..`, in reading order.
pub open spec fn enc_tail(data: Seq<u8>, freq: Seq<int>, i: int) -> Seq<u8>
    decreases data.len() - i,
{
    if i >= data.len() || i < 0 {
        Seq::empty()
    } else {
        enc_emit(data, freq, i).reverse() + enc_tail(data, freq, i + 1)
    }
}

/// Little-endian bytes of a 32-bit value.
pub open spec fn le32(x: int) -> Seq<u8> {
    seq![
        (x % 256) as u8,
        ((x / 0x100) % 256) as u8,
        ((x / 0x1_0000) % 256) as u8,
        ((x / 0x100_0000) % 256) as u8,
    ]
}

/// The value of four little-endian bytes at `pos`.
pub open spec fn u32_le_at(s: Seq<u8>, pos: int) -> int {
    s[pos] as int + s[pos + 1] as int * 0x100 + s[pos + 2] as int * 0x1_0000 + s[pos + 3] as int
        * 0x100_0000
}

/// The coded stream of one block: the four terminal lane states (lane 0 first,
/// little-endian), then the renormalization bytes in decoding order.
pub open spec fn encoded_block(data: Seq<u8>, freq: Seq<int>) -> Seq<u8> {
    let st = enc_states(data, freq, 0);
    le32(st[0]) + le32(st[1]) + le32(st[2]) + le32(st[3]) + enc_tail(data, freq, 0)
}

/// Every symbol of `data` has a non-zero frequency.
pub open spec fn covers(freq: Seq<int>, data: Seq<u8>) -> bool {
    forall|i: int| 0 <= i < data.len() ==> freq[#[trigger] data[i] as int] > 0
}

// --- Decoder model -----------------------------------------------------------

/// The symbol whose slot range `[cum[s], cum[s + 1])` holds `slot`, searching from `s`.
pub open spec fn owner(freq: Seq<int>, slot: int, s: int) -> int
    decreases 256 - s,
{
    if s >= 255 {
        255
    } else if slot < sum_to(freq, s + 1) {
        s
    } else {
        owner(freq, slot, s + 1)
    }
}

/// Decoder-side renormalization: pull bytes from `pos` while the state is below
/// `state_lo()`; `None` when the stream runs out.
pub open spec fn pull(stream: Seq<u8>, pos: int, x: int) -> Option<(int, int)>
    decreases stream.len() - pos,
{
    if x >= state_lo() {
        Some((x, pos))
    } else if 0 <= pos < stream.len() {
        pull(stream, pos + 1, x * 256 + stream[pos] as int)
    } else {
        None
    }
}

/// Decode symbols `i..n` with lane states `lanes`, reading from `pos`.
pub open spec fn decode_from(
    stream: Seq<u8>,
    freq: Seq<int>,
    n: int,
    i: int,
    lanes: Seq<int>,
    pos: int,
) -> Option<Seq<u8>>
    decreases n - i,
{
    if i >= n {
        Some(Seq::empty())
    } else {
        let l = i % 4;
        let x = lanes[l];
        let slot = x % scale();
        let s = owner(freq, slot, 0);
        let x2 = freq[s] * (x / scale()) + slot - sum_to(freq, s);
        match pull(stream, pos, x2) {
            None => None,
            Some((x3, p3)) => match decode_from(stream, freq, n, i + 1, lanes.update(l, x3), p3) {
                None => None,
                Some(rest) => Some(seq![s as u8] + rest),
            },
        }
    }
}

/// The initial lane states read from the head of a block stream.
pub open spec fn initial_lanes(stream: Seq<u8>) -> Seq<int> {
    seq![u32_le_at(stream, 0), u32_le_at(stream, 4), u32_le_at(stream, 8), u32_le_at(stream, 12)]
}

// --- Encoder facts -----------------------------------------------------------

pub proof fn lemma_renorm(x: int, xmax: int)
    requires
        0 <= x,
        xmax > 0,
    ensures
        renorm(x, xmax).1 < xmax,
        renorm(x, xmax).1 <= x,
        renorm(x, xmax).1 >= x || renorm(x, xmax).1 >= xmax / 256,
        renorm(x, xmax).1 >= 0,
        x < state_hi() && xmax >= 524288 ==> renorm(x, xmax).0.len() <= 2,
    decreases x,
{
    if x >= xmax {
        lemma_renorm(x / 256, xmax);
        if x / 256 < xmax {
            assert(renorm(x / 256, xmax).1 == x / 256);
        }
        if x < state_hi() && xmax >= 524288 {
            assert(x / 256 < 0x80_0000);
            if x / 256 >= xmax {
                assert(x / 256 / 256 < xmax);
                assert(renorm(x / 256 / 256, xmax).0.len() == 0);
            }
        }
    }
}

/// The pieces of a valid table that the coder relies on for symbol `s`.
pub proof fn lemma_table_slot(freq: Seq<int>, s: int)
    requires
        valid_table(freq),
        0 <= s < 256,
    ensures
        0 <= sum_to(freq, s),
        sum_to(freq, s) + freq[s] <= scale(),
        sum_to(freq, s + 1) == sum_to(freq, s) + freq[s],
{
    lemma_sum_monotone(freq, s + 1, 256);
    lemma_sum_nonneg(freq, s);
}

/// Every lane state stays inside `[state_lo(), state_hi())`.
pub proof fn lemma_enc_states(data: Seq<u8>, freq: Seq<int>, i: int)
    requires
        valid_table(freq),
        covers(freq, data),
        0 <= i <= data.len(),
    ensures
        enc_states(data, freq, i).len() == 4,
        forall|l: int|
            0 <= l < 4 ==> state_lo() <= #[trigger] enc_states(data, freq, i)[l] < state_hi(),
    decreases data.len() - i,
{
    if i < data.len() {
        lemma_enc_states(data, freq, i + 1);
        let st = enc_states(data, freq, i + 1);
        let l = i % 4;
        let s = data[i] as int;
        let f = freq[s];
        assert(f > 0);
        lemma_table_slot(freq, s);
        lemma_renorm(st[l], renorm_bound(f));
        let y = renorm(st[l], renorm_bound(f)).1;
        let start = sum_to(freq, s);
        assert(y >= f * 2048);
        lemma_code_range(y, f, start);
    }
}

pub proof fn lemma_code_range(y: int, f: int, start: int)
    requires
        1 <= f <= scale(),
        0 <= start,
        start + f <= scale(),
        f * 2048 <= y < renorm_bound(f),
    ensures
        state_lo() <= code(y, f, start) < state_hi(),
        code(y, f, start) / scale() == y / f,
        code(y, f, start) % scale() == y % f + start,
{
    let q = y / f;
    let r = y % f;
    assert(y == f * q + r && 0 <= r < f) by {
        vstd::arithmetic::div_mod::lemma_fundamental_div_mod(y, f);
    }
    assert(q >= 2048) by (nonlinear_arith)
        requires
            y == f * q + r,
            0 <= r < f,
            f * 2048 <= y,
            f >= 1,
    ;
    assert(q < 524288) by (nonlinear_arith)
        requires
            y == f * q + r,
            0 <= r,
            y < 524288 * f,
            f >= 1,
    ;
    assert(code(y, f, start) == q * 4096 + (r + start));
    assert(0 <= r + start < 4096);
    vstd::arithmetic::div_mod::lemma_fundamental_div_mod_converse(
        code(y, f, start),
        4096,
        q,
        r + start,
    );
}


// --- Decoder facts -----------------------------------------------------------

pub proof fn lemma_owner(freq: Seq<int>, slot: int, t: int, s: int)
    requires
        valid_table(freq),
        0 <= s <= t < 256,
        sum_to(freq, t) <= slot < sum_to(freq, t + 1),
    ensures
        owner(freq, slot, s) == t,
    decreases t - s,
{
    if s < t {
        lemma_sum_monotone(freq, s + 1, t);
        lemma_owner(freq, slot, t, s + 1);
    }
}

/// Every slot of a valid table has an owner whose range holds it.
pub proof fn lemma_owner_range(freq: Seq<int>, slot: int, s: int)
    requires
        valid_table(freq),
        0 <= s < 256,
        sum_to(freq, s) <= slot < scale(),
    ensures
        s <= owner(freq, slot, s) < 256,
        sum_to(freq, owner(freq, slot, s)) <= slot < sum_to(freq, owner(freq, slot, s) + 1),
        freq[owner(freq, slot, s)] > 0,
    decreases 256 - s,
{
    lemma_table_slot(freq, s);
    if s >= 255 {
        assert(sum_to(freq, 256) == scale());
    } else if slot < sum_to(freq, s + 1) {
    } else {
        lemma_owner_range(freq, slot, s + 1);
    }
}

/// Pulling the bytes that renormalization emitted (in reverse) restores the
/// state that renormalization started from.
pub proof fn lemma_pull_renorm(stream: Seq<u8>, pos: int, x: int, xmax: int)
    requires
        0 <= x < state_hi(),
        xmax > 0,
        0 <= pos,
        pos + renorm(x, xmax).0.len() <= stream.len(),
        stream.subrange(pos, pos + renorm(x, xmax).0.len()) == renorm(x, xmax).0.reverse(),
    ensures
        pull(stream, pos, renorm(x, xmax).1) == pull(stream, pos + renorm(x, xmax).0.len(), x),
    decreases x,
{
    if xmax > 0 && x >= xmax && x > 0 {
        let r = renorm(x / 256, xmax);
        let em = renorm(x, xmax).0;
        assert(em == seq![(x % 256) as u8] + r.0);
        let q = pos + r.0.len();
        assert(em.reverse() =~= r.0.reverse() + seq![(x % 256) as u8]);
        assert(stream.subrange(pos, q) =~= r.0.reverse()) by {
            assert(stream.subrange(pos, q) =~= stream.subrange(pos, pos + em.len()).subrange(0, r.0.len() as int));
        }
        lemma_pull_renorm(stream, pos, x / 256, xmax);
        assert(stream[q] == (x % 256) as u8) by {
            assert(stream[q] == stream.subrange(pos, pos + em.len())[r.0.len() as int]);
        }
        assert((x / 256) * 256 + (x % 256) as u8 as int == x);
        assert(x / 256 < state_lo());
    }
}

pub proof fn lemma_le32(s: Seq<u8>, pos: int, x: int)
    requires
        0 <= x < 0x1_0000_0000,
        0 <= pos,
        pos + 4 <= s.len(),
        s.subrange(pos, pos + 4) == le32(x),
    ensures
        u32_le_at(s, pos) == x,
{
    assert(s[pos] == le32(x)[0]);
    assert(s[pos + 1] == le32(x)[1]);
    assert(s[pos + 2] == le32(x)[2]);
    assert(s[pos + 3] == le32(x)[3]);
    let b0 = x % 256;
    let x1 = x / 256;
    let b1 = x1 % 256;
    let x2 = x1 / 256;
    let b2 = x2 % 256;
    let x3 = x2 / 256;
    assert(x / 0x100 == x1);
    assert(x / 0x1_0000 == x2) by {
        vstd::arithmetic::div_mod::lemma_div_denominator(x, 256, 256);
    }
    assert(x / 0x100_0000 == x3) by {
        vstd::arithmetic::div_mod::lemma_div_denominator(x, 256, 256);
        vstd::arithmetic::div_mod::lemma_div_denominator(x, 0x1_0000, 256);
    }
    assert(x3 < 256);
    assert(x3 % 256 == x3);
}

/// Decoding from the state the encoder left for symbol `i` gives back `data[i..]`.
pub proof fn lemma_decode_tail(data: Seq<u8>, freq: Seq<int>, stream: Seq<u8>, i: int)
    requires
        valid_table(freq),
        covers(freq, data),
        0 <= i <= data.len(),
        enc_tail(data, freq, i).len() <= stream.len(),
        stream.skip(stream.len() - enc_tail(data, freq, i).len()) == enc_tail(data, freq, i),
    ensures
        decode_from(
            stream,
            freq,
            data.len() as int,
            i,
            enc_states(data, freq, i),
            stream.len() - enc_tail(data, freq, i).len(),
        ) == Some(data.skip(i)),
    decreases data.len() - i,
{
    let n = data.len() as int;
    let pos = stream.len() - enc_tail(data, freq, i).len();
    if i < n {
        lemma_enc_states(data, freq, i + 1);
        let st = enc_states(data, freq, i + 1);
        let l = i % 4;
        let s = data[i] as int;
        let f = freq[s];
        let start = sum_to(freq, s);
        let xmax = renorm_bound(f);
        let em = renorm(st[l], xmax).0;
        let y = renorm(st[l], xmax).1;
        assert(f > 0);
        lemma_table_slot(freq, s);
        lemma_renorm(st[l], xmax);
        lemma_code_range(y, f, start);
        let x = code(y, f, start);
        assert(enc_states(data, freq, i)[l] == x);
        let slot = x % scale();
        lemma_owner(freq, slot, s, 0);
        assert(f * (x / scale()) + slot - start == y) by {
            vstd::arithmetic::div_mod::lemma_fundamental_div_mod(y, f);
        }
        let tail = enc_tail(data, freq, i + 1);
        assert(enc_tail(data, freq, i) == em.reverse() + tail);
        let pos2 = pos + em.len();
        assert(stream.subrange(pos, pos2) =~= em.reverse()) by {
            assert(stream.subrange(pos, pos2) =~= stream.skip(pos).subrange(0, em.len() as int));
        }
        assert(stream.skip(pos2) =~= tail) by {
            assert(stream.skip(pos2) =~= stream.skip(pos).skip(em.len() as int));
        }
        lemma_pull_renorm(stream, pos, st[l], xmax);
        assert(pull(stream, pos, y) == Some((st[l], pos2)));
        assert(enc_states(data, freq, i).update(l, st[l]) =~= st);
        lemma_decode_tail(data, freq, stream, i + 1);
        assert(data.skip(i) =~= seq![s as u8] + data.skip(i + 1));
    } else {
        assert(data.skip(i) =~= Seq::<u8>::empty());
    }
}

/// Decoding the encoding of a block, with the same valid table, gives the block back.
pub proof fn lemma_block_roundtrip(data: Seq<u8>, freq: Seq<int>)
    requires
        valid_table(freq),
        covers(freq, data),
    ensures
        encoded_block(data, freq).len() >= 16,
        initial_lanes(encoded_block(data, freq)) == enc_states(data, freq, 0),
        decode_from(
            encoded_block(data, freq),
            freq,
            data.len() as int,
            0,
            initial_lanes(encoded_block(data, freq)),
            16,
        ) == Some(data),
{
    let st = enc_states(data, freq, 0);
    let e = encoded_block(data, freq);
    let tail = enc_tail(data, freq, 0);
    lemma_enc_states(data, freq, 0);
    assert(e.subrange(0, 4) =~= le32(st[0]));
    assert(e.subrange(4, 8) =~= le32(st[1]));
    assert(e.subrange(8, 12) =~= le32(st[2]));
    assert(e.subrange(12, 16) =~= le32(st[3]));
    lemma_le32(e, 0, st[0]);
    lemma_le32(e, 4, st[1]);
    lemma_le32(e, 8, st[2]);
    lemma_le32(e, 12, st[3]);
    assert(initial_lanes(e) =~= st);
    assert(e.skip(16) =~= tail);
    lemma_decode_tail(data, freq, e, 0);
    assert(data.skip(0) =~= data);
}

/// A block's renormalization bytes number at most two per symbol.
pub proof fn lemma_enc_tail_len(data: Seq<u8>, freq: Seq<int>, i: int)
    requires
        valid_table(freq),
        covers(freq, data),
        0 <= i <= data.len(),
    ensures
        enc_tail(data, freq, i).len() <= 2 * (data.len() - i),
    decreases data.len() - i,
{
    if i < data.len() {
        lemma_enc_states(data, freq, i + 1);
        let st = enc_states(data, freq, i + 1);
        let s = data[i] as int;
        assert(freq[s] > 0);
        lemma_renorm(st[i % 4], renorm_bound(freq[s]));
        lemma_enc_tail_len(data, freq, i + 1);
    }
}


// --- Reciprocal division -----------------------------------------------------

/// Alverson's fixed-point reciprocal: for a frequency `f` in `(2^(sh-1), 2^sh]`,
/// `rcp = ceil(2^(sh+31) / f)` fits in 32 bits and turns `x / f` into a
/// multiply-high and a shift for every 31-bit `x`.
pub proof fn lemma_recip(x: int, f: int, sh: nat, rcp: int)
    requires
        2 <= f <= 4096,
        1 <= sh <= 12,
        pow2((sh - 1) as nat) < f <= pow2(sh),
        rcp == (pow2(sh + 31) + f - 1) / f,
        0 <= x < 0x8000_0000,
    ensures
        0 <= rcp < 0x1_0000_0000,
        (x * rcp / 0x1_0000_0000) / (pow2((sh - 1) as nat) as int) == x / f,
{
    let h = pow2((sh - 1) as nat) as int;
    let p = pow2(sh + 31) as int;
    let g = pow2(sh) as int;
    lemma2_to64();
    lemma_pow2_pos((sh - 1) as nat);
    lemma_pow2_adds(32, (sh - 1) as nat);
    lemma_pow2_adds(31, sh);
    assert(p == 0x1_0000_0000 * h);
    assert(p == 0x8000_0000 * g);
    assert(h <= 2048) by {
        vstd::arithmetic::power2::lemma_pow2_strictly_increases((sh - 1) as nat, 12);
    }
    // f * rcp lies in [p, p + f - 1].
    let m = (p + f - 1) % f;
    lemma_fundamental_div_mod(p + f - 1, f);
    assert(p + f - 1 == f * rcp + m && 0 <= m < f);
    assert(f * rcp >= p);
    assert(f * rcp <= p + f - 1);
    assert(rcp >= 0) by (nonlinear_arith)
        requires
            f * rcp >= p,
            p > 0,
            f > 0,
    ;
    assert(rcp < 0x1_0000_0000) by (nonlinear_arith)
        requires
            f * rcp <= p + f - 1,
            p == 0x1_0000_0000 * h,
            f >= h + 1,
            1 <= h <= 2048,
    ;
    // The quotient.
    let q0 = x / f;
    let r = x % f;
    lemma_fundamental_div_mod(x, f);
    assert(x == f * q0 + r && 0 <= r < f);
    assert(q0 >= 0) by (nonlinear_arith)
        requires
            x == f * q0 + r,
            0 <= x,
            r < f,
            f > 0,
    ;
    let v = x * rcp;
    assert(f * v == x * (f * rcp)) by (nonlinear_arith)
        requires
            v == x * rcp,
    ;
    assert(f * v >= f * (q0 * p)) by (nonlinear_arith)
        requires
            f * v == x * (f * rcp),
            f * rcp >= p,
            x == f * q0 + r,
            r >= 0,
            x >= 0,
            p > 0,
    ;
    assert(v >= q0 * p) by (nonlinear_arith)
        requires
            f * v >= f * (q0 * p),
            f > 0,
    ;
    assert(x * (f - 1) < 0x8000_0000 * f) by (nonlinear_arith)
        requires
            0 <= x < 0x8000_0000,
            f >= 2,
    ;
    assert(f * v < f * ((q0 + 1) * p)) by (nonlinear_arith)
        requires
            f * v == x * (f * rcp),
            f * rcp <= p + f - 1,
            x == f * q0 + r,
            0 <= r < f,
            x >= 0,
            x * (f - 1) < 0x8000_0000 * f,
            0x8000_0000 * f <= p,
    ;
    assert(v < (q0 + 1) * p) by (nonlinear_arith)
        requires
            f * v < f * ((q0 + 1) * p),
            f > 0,
    ;
    assert((q0 + 1) * p == q0 * p + p) by (nonlinear_arith);
    lemma_fundamental_div_mod_converse(v, p, q0, v - q0 * p);
    assert(v >= 0);
    lemma_div_denominator(v, 0x1_0000_0000, h);
}

/// With frequency 1 the all-ones reciprocal gives `x - 1`.
pub proof fn lemma_recip_one(x: int)
    requires
        1 <= x < 0x1_0000_0000,
    ensures
        x * 0xffff_ffff / 0x1_0000_0000 == x - 1,
{
    vstd::arithmetic::div_mod::lemma_fundamental_div_mod_converse(
        x * 0xffff_ffff,
        0x1_0000_0000,
        x - 1,
        0x1_0000_0000 - x,
    );
}

pub proof fn lemma_valid_from_sum(f: Seq<int>)
    requires
        f.len() == 256,
        forall|i: int| 0 <= i < 256 ==> f[i] >= 0,
        sum_to(f, 256) == scale(),
    ensures
        valid_table(f),
{
    assert forall|i: int| 0 <= i < 256 implies 0 <= #[trigger] f[i] <= scale() by {
        lemma_sum_nonneg_elem_le(f, 256, i);
    }
}


// --- Block framing -------------------------------------------------------------

/// Little-endian bytes of a 16-bit value.
pub open spec fn le16(x: int) -> Seq<u8> {
    seq![(x % 256) as u8, ((x / 0x100) % 256) as u8]
}

pub open spec fn u16_le_at(s: Seq<u8>, pos: int) -> int {
    s[pos] as int + s[pos + 1] as int * 0x100
}

/// The `(symbol, frequency)` entries of the symbols below `k` that occur.
pub open spec fn table_bytes(freq: Seq<int>, k: int) -> Seq<u8>
    decreases k,
{
    if k <= 0 {
        Seq::empty()
    } else {
        table_bytes(freq, k - 1) + (if freq[k - 1] > 0 {
            seq![(k - 1) as u8] + le16(freq[k - 1])
        } else {
            Seq::empty()
        })
    }
}

/// How many of the symbols below `k` occur.
pub open spec fn present_count(freq: Seq<int>, k: int) -> int
    decreases k,
{
    if k <= 0 {
        0
    } else {
        present_count(freq, k - 1) + (if freq[k - 1] > 0 {
            1int
        } else {
            0int
        })
    }
}

/// The frequency table a block is coded with.
pub open spec fn block_table(block: Seq<u8>) -> Seq<int> {
    normalized(histogram_of(block))
}

/// One block on the wire: `[raw_len][nsym][(symbol, freq)...][stream_len][stream]`.
#[verifier::opaque]
pub open spec fn serialized_block(block: Seq<u8>) -> Seq<u8> {
    let f = block_table(block);
    let st = encoded_block(block, f);
    le32(block.len() as int) + le16(present_count(f, 256)) + table_bytes(f, 256) + le32(
        st.len() as int,
    ) + st
}

pub proof fn lemma_count_pos(s: Seq<u8>, i: int)
    requires
        0 <= i < s.len(),
    ensures
        count_of(s, s[i] as int) > 0,
    decreases s.len(),
{
    if i < s.len() - 1 {
        lemma_count_pos(s.drop_last(), i);
    }
}

pub proof fn lemma_histogram_sum(s: Seq<u8>)
    ensures
        sum_to(histogram_of(s), 256) == s.len(),
        forall|i: int| 0 <= i < 256 ==> #[trigger] histogram_of(s)[i] >= 0,
    decreases s.len(),
{
    if s.len() == 0 {
        assert(histogram_of(s) =~= Seq::new(256, |i: int| 0int));
        lemma_sum_bounded(histogram_of(s), 256, 0);
        lemma_sum_nonneg(histogram_of(s), 256);
    } else {
        let t = s.drop_last();
        lemma_histogram_sum(t);
        let b = s.last() as int;
        assert(histogram_of(s) =~= histogram_of(t).update(b, histogram_of(t)[b] + 1));
        lemma_sum_update(histogram_of(t), 256, b, histogram_of(t)[b] + 1);
    }
}

/// The table a non-empty block is coded with is valid and covers the block.
pub proof fn lemma_block_table(block: Seq<u8>)
    requires
        block.len() > 0,
    ensures
        valid_table(block_table(block)),
        covers(block_table(block), block),
{
    let c = histogram_of(block);
    lemma_histogram_sum(block);
    lemma_normalized(c);
    assert forall|i: int| 0 <= i < block.len() implies block_table(block)[#[trigger] block[i] as int] > 0 by {
        lemma_count_pos(block, i);
    }
}

pub proof fn lemma_present_count(freq: Seq<int>, k: int)
    requires
        0 <= k <= freq.len(),
    ensures
        0 <= present_count(freq, k) <= k,
        table_bytes(freq, k).len() == 3 * present_count(freq, k),
    decreases k,
{
    if k > 0 {
        lemma_present_count(freq, k - 1);
    }
}

/// Why a coded stream was refused.
#[derive(Clone, Copy, Debug, PartialEq, Eq, Structural)]
pub enum AnsError {
    /// The stream does not start with the ANS magic.
    BadMagic,
    /// A block's frequency table does not sum to `TOTAL`.
    BadTable,
    /// A block stream ends before all its symbols are decoded.
    Truncated,
    /// A block header announces more than `BLOCK` bytes.
    BlockTooLong,
    /// A block header announces more than 256 symbols.
    TooManySymbols,
    /// A block header announces an implausibly long stream.
    StreamTooLong,
    /// The input ends inside a header or a block.
    UnexpectedEnd,
}

/// What decoding `n` symbols from a block stream with table `freq` yields.
pub open spec fn decoded_block(stream: Seq<u8>, n: int, freq: Seq<int>) -> Result<Seq<u8>, AnsError> {
    if sum_to(freq, 256) != scale() {
        Err(AnsError::BadTable)
    } else if stream.len() < 16 {
        Err(AnsError::Truncated)
    } else {
        match decode_from(stream, freq, n, 0, initial_lanes(stream), 16) {
            Some(d) => Ok(d),
            None => Err(AnsError::Truncated),
        }
    }
}


// --- Stream framing ------------------------------------------------------------

/// The stream magic, `ANS2`.
pub open spec fn ans_magic() -> Seq<u8> {
    seq![0x41u8, 0x4eu8, 0x53u8, 0x32u8]
}

/// Largest block the format admits.
pub open spec fn block_limit() -> int {
    0x10_0000
}

/// Longest block stream the format admits.
pub open spec fn stream_limit() -> int {
    0x20_0040
}

/// Blocks of the data, each `block_limit()` long but possibly the last.
pub open spec fn encoded_blocks(data: Seq<u8>) -> Seq<u8>
    decreases data.len(),
{
    if data.len() == 0 {
        Seq::empty()
    } else if data.len() <= block_limit() {
        serialized_block(data)
    } else {
        serialized_block(data.take(block_limit())) + encoded_blocks(data.skip(block_limit()))
    }
}

/// A whole coded stream: magic, blocks, and the end-of-stream marker (a block of
/// length zero).
pub open spec fn encoded_stream(data: Seq<u8>) -> Seq<u8> {
    ans_magic() + encoded_blocks(data) + le32(0)
}

/// The frequency table read from `nsym` entries at `pos` (later entries for the
/// same symbol win; unlisted symbols have frequency 0).
pub open spec fn parse_table(bytes: Seq<u8>, pos: int, nsym: int) -> Seq<int>
    decreases nsym,
{
    if nsym <= 0 {
        Seq::new(256, |i: int| 0int)
    } else {
        let e = pos + 3 * (nsym - 1);
        parse_table(bytes, pos, nsym - 1).update(bytes[e] as int, u16_le_at(bytes, e + 1))
    }
}

/// Decode the blocks starting at `pos`, through the end-of-stream marker.
pub open spec fn decode_blocks(bytes: Seq<u8>, pos: int) -> Result<Seq<u8>, AnsError>
    decreases bytes.len() - pos,
{
    if pos < 0 || pos + 4 > bytes.len() {
        Err(AnsError::UnexpectedEnd)
    } else {
        let raw_len = u32_le_at(bytes, pos);
        if raw_len == 0 {
            Ok(Seq::empty())
        } else if raw_len > block_limit() {
            Err(AnsError::BlockTooLong)
        } else if pos + 6 > bytes.len() {
            Err(AnsError::UnexpectedEnd)
        } else {
            let nsym = u16_le_at(bytes, pos + 4);
            let spos = pos + 6 + 3 * nsym;
            if nsym > 256 {
                Err(AnsError::TooManySymbols)
            } else if spos + 4 > bytes.len() {
                Err(AnsError::UnexpectedEnd)
            } else {
                let slen = u32_le_at(bytes, spos);
                let end = spos + 4 + slen;
                if slen > stream_limit() {
                    Err(AnsError::StreamTooLong)
                } else if end > bytes.len() {
                    Err(AnsError::UnexpectedEnd)
                } else {
                    match decoded_block(
                        bytes.subrange(spos + 4, end),
                        raw_len,
                        parse_table(bytes, pos + 6, nsym),
                    ) {
                        Err(e) => Err(e),
                        Ok(d) => match decode_blocks(bytes, end) {
                            Err(e) => Err(e),
                            Ok(rest) => Ok(d + rest),
                        },
                    }
                }
            }
        }
    }
}

/// What a whole coded stream decodes to.
pub open spec fn decoded_stream(bytes: Seq<u8>) -> Result<Seq<u8>, AnsError> {
    if bytes.len() < 4 {
        Err(AnsError::UnexpectedEnd)
    } else if bytes.take(4) != ans_magic() {
        Err(AnsError::BadMagic)
    } else {
        decode_blocks(bytes, 4)
    }
}

// --- Stream roundtrip ----------------------------------------------------------

proof fn lemma_le16(s: Seq<u8>, pos: int, x: int)
    requires
        0 <= x < 0x1_0000,
        0 <= pos,
        pos + 2 <= s.len(),
        s.subrange(pos, pos + 2) == le16(x),
    ensures
        u16_le_at(s, pos) == x,
{
    assert(s[pos] == le16(x)[0]);
    assert(s[pos + 1] == le16(x)[1]);
}

/// Reading back the table entries of `table_bytes(freq, k)` gives `freq` below
/// `k` and zeros above.
proof fn lemma_parse_table(freq: Seq<int>, bytes: Seq<u8>, pos: int, k: int)
    requires
        valid_table(freq),
        0 <= k <= 256,
        0 <= pos,
        pos + table_bytes(freq, k).len() <= bytes.len(),
        bytes.subrange(pos, pos + table_bytes(freq, k).len()) == table_bytes(freq, k),
    ensures
        parse_table(bytes, pos, present_count(freq, k)) == Seq::new(
            256,
            |i: int|
                if i < k {
                    freq[i]
                } else {
                    0int
                },
        ),
    decreases k,
{
    lemma_present_count(freq, k);
    if k > 0 {
        lemma_present_count(freq, k - 1);
        let t = table_bytes(freq, k - 1);
        assert(bytes.subrange(pos, pos + t.len()) =~= t) by {
            assert(bytes.subrange(pos, pos + t.len()) =~= bytes.subrange(
                pos,
                pos + table_bytes(freq, k).len(),
            ).subrange(0, t.len() as int));
        }
        lemma_parse_table(freq, bytes, pos, k - 1);
        let n1 = present_count(freq, k - 1);
        if freq[k - 1] > 0 {
            let e = pos + 3 * n1;
            let entry = seq![(k - 1) as u8] + le16(freq[k - 1]);
            assert(bytes.subrange(e, e + 3) =~= entry) by {
                assert(bytes.subrange(e, e + 3) =~= bytes.subrange(
                    pos,
                    pos + table_bytes(freq, k).len(),
                ).subrange(t.len() as int, t.len() as int + 3));
            }
            assert(bytes[e] == bytes.subrange(e, e + 3)[0]);
            assert(bytes[e] == (k - 1) as u8);
            assert(bytes.subrange(e + 1, e + 3) =~= bytes.subrange(e, e + 3).subrange(1, 3));
            assert(bytes.subrange(e + 1, e + 3) =~= le16(freq[k - 1]));
            lemma_le16(bytes, e + 1, freq[k - 1]);
        }
        assert(parse_table(bytes, pos, present_count(freq, k)) =~= Seq::new(
            256,
            |i: int|
                if i < k {
                    freq[i]
                } else {
                    0int
                },
        ));
    } else {
        assert(parse_table(bytes, pos, 0) =~= Seq::new(
            256,
            |i: int|
                if i < 0 {
                    freq[i]
                } else {
                    0int
                },
        ));
    }
}

/// The framing of one block around a stream that decodes to `d`.
proof fn lemma_frame_parts(
    bytes: Seq<u8>,
    pos: int,
    n: int,
    f: Seq<int>,
    st: Seq<u8>,
    d: Seq<u8>,
)
    requires
        0 < n <= block_limit(),
        valid_table(f),
        st.len() <= stream_limit(),
        0 <= pos,
        pos + (le32(n) + le16(present_count(f, 256)) + table_bytes(f, 256) + le32(st.len() as int)
            + st).len() <= bytes.len(),
        bytes.subrange(
            pos,
            pos + (le32(n) + le16(present_count(f, 256)) + table_bytes(f, 256) + le32(
                st.len() as int,
            ) + st).len(),
        ) == le32(n) + le16(present_count(f, 256)) + table_bytes(f, 256) + le32(st.len() as int)
            + st,
        decoded_block(st, n, f) == Ok::<Seq<u8>, AnsError>(d),
    ensures
        decode_blocks(bytes, pos) == match decode_blocks(
            bytes,
            pos + (le32(n) + le16(present_count(f, 256)) + table_bytes(f, 256) + le32(
                st.len() as int,
            ) + st).len(),
        ) {
            Err(e) => Err::<Seq<u8>, AnsError>(e),
            Ok(rest) => Ok::<Seq<u8>, AnsError>(d + rest),
        },
{
    let np = present_count(f, 256);
    let tb = table_bytes(f, 256);
    let sb = le32(n) + le16(np) + tb + le32(st.len() as int) + st;
    lemma_present_count(f, 256);
    let w = bytes.subrange(pos, pos + sb.len());
    assert(bytes.subrange(pos, pos + 4) =~= le32(n)) by {
        assert(bytes.subrange(pos, pos + 4) =~= w.subrange(0, 4));
    }
    lemma_le32(bytes, pos, n);
    assert(bytes.subrange(pos + 4, pos + 6) =~= le16(np)) by {
        assert(bytes.subrange(pos + 4, pos + 6) =~= w.subrange(4, 6));
    }
    lemma_le16(bytes, pos + 4, np);
    assert(bytes.subrange(pos + 6, pos + 6 + tb.len()) =~= tb) by {
        assert(bytes.subrange(pos + 6, pos + 6 + tb.len()) =~= w.subrange(6, 6 + tb.len() as int));
    }
    lemma_parse_table(f, bytes, pos + 6, 256);
    assert(parse_table(bytes, pos + 6, np) =~= f);
    let spos = pos + 6 + 3 * np;
    assert(bytes.subrange(spos, spos + 4) =~= le32(st.len() as int)) by {
        assert(bytes.subrange(spos, spos + 4) =~= w.subrange(6 + tb.len() as int, 10 + tb.len() as int));
    }
    lemma_le32(bytes, spos, st.len() as int);
    assert(bytes.subrange(spos + 4, spos + 4 + st.len()) =~= st) by {
        assert(bytes.subrange(spos + 4, spos + 4 + st.len()) =~= w.subrange(
            10 + tb.len() as int,
            sb.len() as int,
        ));
    }
    assert(sb.len() == 10 + 3 * np + st.len());
}

/// Decoding a serialized block followed by anything decodes the block, then goes on.
pub proof fn lemma_block_frame(block: Seq<u8>, bytes: Seq<u8>, pos: int)
    requires
        0 < block.len() <= block_limit(),
        0 <= pos,
        pos + serialized_block(block).len() <= bytes.len(),
        bytes.subrange(pos, pos + serialized_block(block).len()) == serialized_block(block),
    ensures
        decode_blocks(bytes, pos) == match decode_blocks(bytes, pos + serialized_block(block).len()) {
            Err(e) => Err::<Seq<u8>, AnsError>(e),
            Ok(rest) => Ok::<Seq<u8>, AnsError>(block + rest),
        },
{
    reveal(serialized_block);
    let f = block_table(block);
    let st = encoded_block(block, f);
    assert(valid_table(f) && covers(f, block)) by {
        lemma_block_table(block);
    }
    assert(st.len() <= stream_limit()) by {
        lemma_enc_tail_len(block, f, 0);
    }
    assert(decoded_block(st, block.len() as int, f) == Ok::<Seq<u8>, AnsError>(block)) by {
        lemma_block_roundtrip(block, f);
    }
    lemma_frame_parts(bytes, pos, block.len() as int, f, st, block);
}

pub proof fn lemma_serialized_len(block: Seq<u8>)
    requires
        0 < block.len() <= block_limit(),
    ensures
        serialized_block(block).len() >= 26,
{
    reveal(serialized_block);
    let f = block_table(block);
    lemma_block_table(block);
    lemma_block_roundtrip(block, f);
}

/// Decoding the blocks of `data` followed by the end marker gives `data` back.
pub proof fn lemma_blocks_roundtrip(data: Seq<u8>, bytes: Seq<u8>, pos: int)
    requires
        0 <= pos,
        pos + encoded_blocks(data).len() + 4 <= bytes.len(),
        bytes.subrange(pos, pos + encoded_blocks(data).len() + 4) == encoded_blocks(data) + le32(0),
    ensures
        decode_blocks(bytes, pos) == Ok::<Seq<u8>, AnsError>(data),
    decreases data.len(),
{
    let eb = encoded_blocks(data);
    if data.len() == 0 {
        assert(bytes.subrange(pos, pos + 4) =~= le32(0));
        lemma_le32(bytes, pos, 0);
        assert(data =~= Seq::<u8>::empty());
    } else {
        let first = if data.len() <= block_limit() {
            data
        } else {
            data.take(block_limit())
        };
        let rest = if data.len() <= block_limit() {
            Seq::<u8>::empty()
        } else {
            data.skip(block_limit())
        };
        assert(encoded_blocks(rest) == if data.len() <= block_limit() {
            Seq::<u8>::empty()
        } else {
            encoded_blocks(data.skip(block_limit()))
        });
        assert(eb =~= serialized_block(first) + encoded_blocks(rest));
        let sb = serialized_block(first);
        assert(bytes.subrange(pos, pos + sb.len()) =~= sb) by {
            assert(bytes.subrange(pos, pos + sb.len()) =~= bytes.subrange(
                pos,
                pos + eb.len() + 4,
            ).subrange(0, sb.len() as int));
        }
        lemma_block_frame(first, bytes, pos);
        let p2 = pos + sb.len();
        assert(bytes.subrange(p2, p2 + encoded_blocks(rest).len() + 4) =~= encoded_blocks(rest) + le32(
            0,
        )) by {
            assert(bytes.subrange(p2, p2 + encoded_blocks(rest).len() + 4) =~= bytes.subrange(
                pos,
                pos + eb.len() + 4,
            ).subrange(sb.len() as int, eb.len() as int + 4));
        }
        lemma_blocks_roundtrip(rest, bytes, p2);
        assert(first + rest =~= data);
        assert(decode_blocks(bytes, p2) == Ok::<Seq<u8>, AnsError>(rest));
    }
}

/// Decoding a coded stream gives back exactly the data it was coded from.
pub proof fn lemma_stream_roundtrip(data: Seq<u8>)
    ensures
        decoded_stream(encoded_stream(data)) == Ok::<Seq<u8>, AnsError>(data),
{
    let e = encoded_stream(data);
    assert(e.take(4) =~= ans_magic());
    assert(e.subrange(4, 4 + encoded_blocks(data).len() as int + 4) =~= encoded_blocks(data) + le32(0));
    lemma_blocks_roundtrip(data, e, 4);
}


// --- Streaming in blocks -------------------------------------------------------

/// The concatenation of a sequence of byte strings.
pub open spec fn flatten(bs: Seq<Seq<u8>>) -> Seq<u8>
    decreases bs.len(),
{
    if bs.len() == 0 {
        Seq::empty()
    } else {
        flatten(bs.drop_last()) + bs.last()
    }
}

/// Whole blocks, then at most one shorter (non-empty) final block.
pub open spec fn block_run(bs: Seq<Seq<u8>>) -> bool {
    forall|i: int|
        0 <= i < bs.len() ==> 0 < (#[trigger] bs[i]).len() <= block_limit() && (i < bs.len() - 1
            ==> bs[i].len() == block_limit())
}

/// Coding data split at a block boundary codes the two parts one after the other.
pub proof fn lemma_encoded_blocks_split(a: Seq<u8>, b: Seq<u8>)
    requires
        a.len() as int % block_limit() == 0,
    ensures
        encoded_blocks(a + b) == encoded_blocks(a) + encoded_blocks(b),
    decreases a.len(),
{
    if a.len() == 0 {
        assert(a + b =~= b);
        assert(encoded_blocks(a) =~= Seq::<u8>::empty());
        assert(Seq::<u8>::empty() + encoded_blocks(b) =~= encoded_blocks(b));
    } else {
        let ab = a + b;
        if ab.len() <= block_limit() {
            assert(b.len() == 0);
            assert(ab =~= a);
            assert(encoded_blocks(b) =~= Seq::<u8>::empty());
            assert(encoded_blocks(a) + encoded_blocks(b) =~= encoded_blocks(a));
        } else {
            assert(ab.take(block_limit()) =~= a.take(block_limit()));
            assert(ab.skip(block_limit()) =~= a.skip(block_limit()) + b);
            lemma_encoded_blocks_split(a.skip(block_limit()), b);
            if a.len() == block_limit() {
                assert(a.take(block_limit()) =~= a);
                assert(a.skip(block_limit()) + b =~= b);
                assert(encoded_blocks(a.skip(block_limit())) =~= Seq::<u8>::empty());
            }
            assert(encoded_blocks(a + b) =~= encoded_blocks(a) + encoded_blocks(b));
        }
    }
}

pub proof fn lemma_flatten_push(bs: Seq<Seq<u8>>, b: Seq<u8>)
    ensures
        flatten(bs.push(b)) == flatten(bs) + b,
{
    assert(bs.push(b).drop_last() =~= bs);
}

pub proof fn lemma_flatten_full(bs: Seq<Seq<u8>>)
    requires
        forall|i: int| 0 <= i < bs.len() ==> (#[trigger] bs[i]).len() == block_limit(),
    ensures
        flatten(bs).len() == bs.len() * block_limit(),
        flatten(bs).len() as int % block_limit() == 0,
    decreases bs.len(),
{
    if bs.len() > 0 {
        lemma_flatten_full(bs.drop_last());
        assert(flatten(bs).len() == (bs.len() - 1) * block_limit() + block_limit());
        assert((bs.len() - 1) * block_limit() + block_limit() == bs.len() * block_limit())
            by (nonlinear_arith);
        vstd::arithmetic::div_mod::lemma_mod_multiples_basic(bs.len() as int, block_limit());
    }
}

/// Coding a run of blocks block by block codes their concatenation.
pub proof fn lemma_flatten_blocks(bs: Seq<Seq<u8>>, k: int)
    requires
        block_run(bs),
        0 <= k <= bs.len(),
    ensures
        encoded_blocks(flatten(bs.take(k))) == flatten(
            bs.take(k).map_values(|b: Seq<u8>| serialized_block(b)),
        ),
    decreases k,
{
    if k == 0 {
        assert(bs.take(0).map_values(|b: Seq<u8>| serialized_block(b)) =~= Seq::<Seq<u8>>::empty());
        assert(flatten(bs.take(0)) =~= Seq::<u8>::empty());
    } else {
        lemma_flatten_blocks(bs, k - 1);
        let p = bs.take(k - 1);
        assert(bs.take(k) =~= p.push(bs[k - 1]));
        lemma_flatten_push(p, bs[k - 1]);
        assert forall|i: int| 0 <= i < p.len() implies (#[trigger] p[i]).len() == block_limit() by {
            assert(p[i] == bs[i]);
        }
        lemma_flatten_full(p);
        lemma_encoded_blocks_split(flatten(p), bs[k - 1]);
        assert(encoded_blocks(bs[k - 1]) == serialized_block(bs[k - 1]));
        let m = bs.take(k).map_values(|b: Seq<u8>| serialized_block(b));
        assert(m.drop_last() =~= p.map_values(|b: Seq<u8>| serialized_block(b)));
    }
}


pub proof fn lemma_whole_blocks_append(a: Seq<u8>, bs: Seq<Seq<u8>>)
    requires
        a.len() as int % block_limit() == 0,
        forall|i: int| 0 <= i < bs.len() ==> (#[trigger] bs[i]).len() == block_limit(),
    ensures
        (a + flatten(bs)).len() as int % block_limit() == 0,
{
    lemma_flatten_full(bs);
    let q = a.len() as int / block_limit();
    vstd::arithmetic::div_mod::lemma_fundamental_div_mod(a.len() as int, block_limit());
    assert((a + flatten(bs)).len() == (q + bs.len()) * block_limit()) by (nonlinear_arith)
        requires
            a.len() == block_limit() * q,
            flatten(bs).len() == bs.len() * block_limit(),
            (a + flatten(bs)).len() == a.len() + flatten(bs).len(),
    ;
    vstd::arithmetic::div_mod::lemma_mod_multiples_basic(q + bs.len(), block_limit());
}


// --- Reading a stream incrementally ---------------------------------------------

/// `s` begins with `prefix`.
pub open spec fn extends(prefix: Seq<u8>, s: Seq<u8>) -> bool {
    prefix.len() <= s.len() && s.take(prefix.len() as int) == prefix
}

/// Output `done`, then the results of the blocks `rs` in order, then `tail`; the
/// first error wins.
pub open spec fn chain(
    done: Seq<u8>,
    rs: Seq<Result<Seq<u8>, AnsError>>,
    tail: Result<Seq<u8>, AnsError>,
) -> Result<Seq<u8>, AnsError>
    decreases rs.len(),
{
    if rs.len() == 0 {
        match tail {
            Ok(t) => Ok(done + t),
            Err(e) => Err(e),
        }
    } else {
        match rs[0] {
            Err(e) => Err(e),
            Ok(d) => chain(done + d, rs.drop_first(), tail),
        }
    }
}

pub proof fn lemma_chain_push(
    done: Seq<u8>,
    rs: Seq<Result<Seq<u8>, AnsError>>,
    r: Result<Seq<u8>, AnsError>,
    tail: Result<Seq<u8>, AnsError>,
)
    ensures
        chain(done, rs, chain(Seq::empty(), seq![r], tail)) == chain(done, rs.push(r), tail),
    decreases rs.len(),
{
    reveal_with_fuel(chain, 3);
    if rs.len() == 0 {
        assert(rs.push(r).drop_first() =~= Seq::<Result<Seq<u8>, AnsError>>::empty());
        assert(seq![r].drop_first() =~= Seq::<Result<Seq<u8>, AnsError>>::empty());
        match r {
            Ok(d) => {
                match tail {
                    Ok(t) => {
                        assert(Seq::<u8>::empty() + d + t =~= d + t);
                        assert(done + (d + t) =~= done + d + t);
                    },
                    Err(_) => {},
                }
            },
            Err(_) => {},
        }
    } else {
        assert(rs.push(r).drop_first() =~= rs.drop_first().push(r));
        match rs[0] {
            Ok(d) => {
                lemma_chain_push(done + d, rs.drop_first(), r, tail);
            },
            Err(_) => {},
        }
    }
}

pub proof fn lemma_chain_prefix(
    done: Seq<u8>,
    rs: Seq<Result<Seq<u8>, AnsError>>,
    tail: Result<Seq<u8>, AnsError>,
)
    ensures
        chain(done, rs, tail) matches Ok(v) ==> done.is_prefix_of(v),
        tail is Err ==> chain(done, rs, tail) is Err,
    decreases rs.len(),
{
    if rs.len() > 0 {
        match rs[0] {
            Ok(d) => {
                lemma_chain_prefix(done + d, rs.drop_first(), tail);
                if chain(done, rs, tail) is Ok {
                    assert(done.is_prefix_of(done + d));
                }
            },
            Err(_) => {},
        }
    } else {
        match tail {
            Ok(t) => {
                assert((done + t).take(done.len() as int) =~= done);
            },
            Err(_) => {},
        }
    }
}

proof fn lemma_ext_bytes(c: Seq<u8>, s: Seq<u8>, i: int)
    requires
        extends(c, s),
        0 <= i < c.len(),
    ensures
        s[i] == c[i],
{
    assert(s.take(c.len() as int)[i] == s[i]);
}

proof fn lemma_parse_table_ext(c: Seq<u8>, s: Seq<u8>, pos: int, nsym: int)
    requires
        extends(c, s),
        0 <= pos,
        pos + 3 * nsym <= c.len(),
    ensures
        parse_table(s, pos, nsym) == parse_table(c, pos, nsym),
    decreases nsym,
{
    if nsym > 0 {
        let e = pos + 3 * (nsym - 1);
        lemma_ext_bytes(c, s, e);
        lemma_ext_bytes(c, s, e + 1);
        lemma_ext_bytes(c, s, e + 2);
        lemma_parse_table_ext(c, s, pos, nsym - 1);
    }
}

/// What the bytes of the prefix `c` already decide about the block at `pos` of
/// every stream `s` that begins with `c`.
pub proof fn lemma_block_ext(c: Seq<u8>, s: Seq<u8>, pos: int)
    requires
        extends(c, s),
        0 <= pos,
        pos + 4 <= c.len(),
    ensures
        u32_le_at(s, pos) == u32_le_at(c, pos),
        u32_le_at(c, pos) == 0 ==> decode_blocks(s, pos) == Ok::<Seq<u8>, AnsError>(Seq::empty()),
        u32_le_at(c, pos) > block_limit() ==> decode_blocks(s, pos) == Err::<Seq<u8>, AnsError>(
            AnsError::BlockTooLong,
        ),
        0 < u32_le_at(c, pos) <= block_limit() && pos + 6 <= c.len() ==> {
            &&& u16_le_at(s, pos + 4) == u16_le_at(c, pos + 4)
            &&& (u16_le_at(c, pos + 4) > 256 ==> decode_blocks(s, pos) == Err::<Seq<u8>, AnsError>(
                AnsError::TooManySymbols,
            ))
        },
        ({
            let nsym = u16_le_at(c, pos + 4);
            let spos = pos + 6 + 3 * nsym;
            0 < u32_le_at(c, pos) <= block_limit() && pos + 6 <= c.len() && nsym <= 256 && spos + 4
                <= c.len() ==> {
                &&& u32_le_at(s, spos) == u32_le_at(c, spos)
                &&& parse_table(s, pos + 6, nsym) == parse_table(c, pos + 6, nsym)
                &&& (u32_le_at(c, spos) > stream_limit() ==> decode_blocks(s, pos) == Err::<
                    Seq<u8>,
                    AnsError,
                >(AnsError::StreamTooLong))
            }
        }),
        ({
            let nsym = u16_le_at(c, pos + 4);
            let spos = pos + 6 + 3 * nsym;
            let end = spos + 4 + u32_le_at(c, spos);
            0 < u32_le_at(c, pos) <= block_limit() && pos + 6 <= c.len() && nsym <= 256 && spos + 4
                <= c.len() && u32_le_at(c, spos) <= stream_limit() && end <= c.len() ==> decode_blocks(
                s,
                pos,
            ) == chain(
                Seq::empty(),
                seq![
                    decoded_block(
                        c.subrange(spos + 4, end),
                        u32_le_at(c, pos),
                        parse_table(c, pos + 6, nsym),
                    ),
                ],
                decode_blocks(s, end),
            )
        }),
{
    lemma_ext_bytes(c, s, pos);
    lemma_ext_bytes(c, s, pos + 1);
    lemma_ext_bytes(c, s, pos + 2);
    lemma_ext_bytes(c, s, pos + 3);
    if 0 < u32_le_at(c, pos) <= block_limit() && pos + 6 <= c.len() {
        lemma_ext_bytes(c, s, pos + 4);
        lemma_ext_bytes(c, s, pos + 5);
        let nsym = u16_le_at(c, pos + 4);
        let spos = pos + 6 + 3 * nsym;
        if nsym <= 256 && spos + 4 <= c.len() {
            lemma_ext_bytes(c, s, spos);
            lemma_ext_bytes(c, s, spos + 1);
            lemma_ext_bytes(c, s, spos + 2);
            lemma_ext_bytes(c, s, spos + 3);
            lemma_parse_table_ext(c, s, pos + 6, nsym);
            let end = spos + 4 + u32_le_at(c, spos);
            if u32_le_at(c, spos) <= stream_limit() && end <= c.len() {
                assert(s.subrange(spos + 4, end) =~= c.subrange(spos + 4, end)) by {
                    assert forall|i: int| 0 <= i < end - spos - 4 implies #[trigger] s.subrange(spos + 4, end)[i]
                        == c.subrange(spos + 4, end)[i] by {
                        lemma_ext_bytes(c, s, spos + 4 + i);
                    }
                }
                let r = decoded_block(c.subrange(spos + 4, end), u32_le_at(c, pos), parse_table(c, pos + 6, nsym));
                assert(seq![r].drop_first() =~= Seq::<Result<Seq<u8>, AnsError>>::empty());
                reveal_with_fuel(chain, 3);
                match r {
                    Ok(d) => {
                        match decode_blocks(s, end) {
                            Ok(t) => {
                                assert(Seq::<u8>::empty() + d + t =~= d + t);
                            },
                            Err(_) => {},
                        }
                    },
                    Err(_) => {},
                }
            }
        }
    }
}


pub proof fn lemma_extends_shorter(c: Seq<u8>, b: Seq<u8>, s: Seq<u8>)
    requires
        extends(c + b, s),
    ensures
        extends(c, s),
{
    assert(s.take(c.len() as int) =~= (c + b).take(c.len() as int));
    assert((c + b).take(c.len() as int) =~= c);
}

pub proof fn lemma_extends_stream(c: Seq<u8>, s: Seq<u8>)
    requires
        extends(c, s),
        c.len() >= 4,
        c.take(4) == ans_magic(),
    ensures
        decoded_stream(s) == decode_blocks(s, 4),
{
    assert(s.take(4) =~= c.take(4));
}

/// Fresh bytes `b` at the end of `c` are read back where they landed.
pub proof fn lemma_fresh_bytes(c: Seq<u8>, b: Seq<u8>)
    ensures
        b.len() >= 4 ==> u32_le_at(c + b, c.len() as int) == u32_le_at(b, 0),
        b.len() >= 2 ==> u16_le_at(c + b, c.len() as int) == u16_le_at(b, 0),
        forall|i: int| 0 <= i < b.len() ==> #[trigger] (c + b)[c.len() + i] == b[i],
        (c + b).subrange(c.len() as int, (c + b).len() as int) == b,
{
    assert((c + b).subrange(c.len() as int, (c + b).len() as int) =~= b);
}


/// Bytes appended after a table do not change it.
pub proof fn lemma_parse_table_prefix(c: Seq<u8>, b: Seq<u8>, pos: int, nsym: int)
    requires
        0 <= pos,
        pos + 3 * nsym <= c.len(),
    ensures
        parse_table(c + b, pos, nsym) == parse_table(c, pos, nsym),
    decreases nsym,
{
    if nsym > 0 {
        let e = pos + 3 * (nsym - 1);
        assert((c + b)[e] == c[e]);
        assert((c + b)[e + 1] == c[e + 1]);
        assert((c + b)[e + 2] == c[e + 2]);
        lemma_parse_table_prefix(c, b, pos, nsym - 1);
    }
}

} // verus!
