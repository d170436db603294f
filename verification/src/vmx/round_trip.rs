//! What the entropy coder writes, the reader gives back.

use super::bits::{
    bit_at, bit_len, bits_of, code_of, coefficient_of, lemma_bit_len, lemma_bit_len_pow,
    lemma_code_round_trip, lemma_packed, lemma_value_of_bits, lemma_zero_run, pack, pad8, run_code, stream_bit, stream_bits,
    symbol_at, tail_at, value_code, wrap16, zero_bits, AcSymbol,
};
use super::convert::{filled, FILL16, FILL8};
use super::dct::{decode_matrix, encode_matrix, lemma_forward_zig_len, Depth};
use super::decoder::{decoded_planes, preview_slice, slice_read, slices_read, SliceState};
use super::encoder::{
    ac_streams, coding, dc_streams, depth_of, plane_count, slice_ac, slice_blocks, slice_dc,
    EncoderState,
};
use super::error::Error;
use super::frame::{alpha_format, halved_format, Frame, PixelFormat};
use super::layout::{law_container_round_trip, parse_of, preset_of, ContainerView, Layout};
use super::slice::{
    ac_bits, ac_block, ac_prefix, ac_words, block_column, block_count, block_index, block_lanes,
    block_row, block_sample, dc_at, dc_bits, dc_code, dc_step, dc_values, level_shift_of, next_block, painted,
    plane_blocks, preview_rows, previous, read_blocks, read_dcs, reduced_dc, zero_block, PlaneCoding,
};
use vstd::arithmetic::power2::pow2;
use vstd::prelude::*;

verus! {

/// The stream holds the bits `s` from position `pos` on.
pub open spec fn holds(data: Seq<u8>, pos: int, s: Seq<bool>) -> bool {
    forall|i: int| 0 <= i < s.len() ==> #[trigger] stream_bit(data, pos + i) == s[i]
}

/// A stream that holds a concatenation holds both parts.
pub proof fn lemma_holds_split(data: Seq<u8>, pos: int, a: Seq<bool>, b: Seq<bool>)
    requires
        holds(data, pos, a + b),
    ensures
        holds(data, pos, a),
        holds(data, pos + a.len(), b),
{
    assert forall|i: int| 0 <= i < a.len() implies #[trigger] stream_bit(data, pos + i) == a[i] by {
        assert((a + b)[i] == a[i]);
    }
    assert forall|i: int| 0 <= i < b.len() implies #[trigger] stream_bit(data, pos + a.len() + i)
        == b[i] by {
        assert(stream_bit(data, pos + (a.len() + i)) == (a + b)[a.len() + i]);
    }
}

/// A value code of at least 2 is read back behind its first zero.
pub proof fn lemma_read_value(data: Seq<u8>, pos: int, v: u64)
    requires
        2 <= v < 0x1_0000_0000,
        holds(data, pos, value_code(v)),
    ensures
        !stream_bit(data, pos),
        tail_at(data, pos + 1) == Some((v, pos + value_code(v).len())),
{
    let n = bit_len(v);
    vstd::arithmetic::power2::lemma2_to64();
    lemma_bit_len_pow(v, 32);
    lemma_bit_len_pow(v, 1);
    lemma_bit_len(v);
    lemma_holds_split(data, pos, zero_bits((n - 1) as nat), bits_of(v, n));
    assert(stream_bit(data, pos + 0) == zero_bits((n - 1) as nat)[0]);
    let z = (n - 2) as nat;
    assert forall|j: int| 0 <= j < z implies !#[trigger] stream_bit(data, pos + 1 + j) by {
        assert(stream_bit(data, pos + (1 + j)) == zero_bits((n - 1) as nat)[1 + j]);
    }
    assert(stream_bit(data, pos + (n - 1) + 0) == bits_of(v, n)[0]);
    assert(bit_at(v, n - 1));
    lemma_zero_run(data, pos + 1, 57, z);
    assert(stream_bits(data, pos + 1 + z, z + 2) =~= bits_of(v, n)) by {
        assert forall|i: int| 0 <= i < n implies stream_bits(data, pos + 1 + z, z + 2)[i] == bits_of(
            v,
            n,
        )[i] by {
            assert(stream_bit(data, pos + (n - 1) + i) == bits_of(v, n)[i]);
        }
    }
    lemma_value_of_bits(v, n);
}

/// A value code is read back as a value.
pub proof fn lemma_read_value_symbol(data: Seq<u8>, pos: int, v: u64)
    requires
        2 <= v < 0x1_0000_0000,
        holds(data, pos, value_code(v)),
    ensures
        symbol_at(data, pos) == Some((AcSymbol::Value(v), pos + value_code(v).len())),
{
    lemma_read_value(data, pos, v);
}

/// A run code is read back as a run.
pub proof fn lemma_read_run_symbol(data: Seq<u8>, pos: int, n: u64)
    requires
        1 <= n < 0x1_0000_0000,
        holds(data, pos, run_code(n)),
    ensures
        symbol_at(data, pos) == Some((AcSymbol::Run(n), pos + run_code(n).len())),
{
    lemma_holds_split(data, pos, seq![true], value_code(n));
    assert(stream_bit(data, pos + 0) == seq![true][0]);
    if n == 1 {
        assert(bit_len(1) == 1) by {
            reveal_with_fuel(bit_len, 2);
        }
        lemma_bit_len(1);
        assert(stream_bit(data, pos + 1 + 0) == value_code(1)[0]);
    } else {
        lemma_read_value(data, pos + 1, n);
    }
}

// ---------------------------------------------------------------------------
// Symbols in a row
// ---------------------------------------------------------------------------

/// What a writer holds after runs and values were put one behind the other.
pub open spec fn coded_pairs(pairs: Seq<(u32, u32)>) -> Seq<bool>
    decreases pairs.len(),
{
    if pairs.len() == 0 {
        Seq::empty()
    } else {
        coded_pairs(pairs.drop_last()) + run_code(pairs.last().0 as u64) + value_code(pairs.last().1 as u64)
    }
}

/// The symbols of runs and values: a run of 0 is none.
pub open spec fn pair_symbols(pairs: Seq<(u32, u32)>) -> Seq<AcSymbol>
    decreases pairs.len(),
{
    if pairs.len() == 0 {
        Seq::empty()
    } else {
        let before = pair_symbols(pairs.drop_last());
        let (run, v) = pairs.last();
        if run > 0 {
            before.push(AcSymbol::Run(run as u64)).push(AcSymbol::Value(v as u64))
        } else {
            before.push(AcSymbol::Value(v as u64))
        }
    }
}

/// The first `n` symbols of a stream and the position behind them.
pub open spec fn symbols_read(data: Seq<u8>, n: nat) -> Option<(Seq<AcSymbol>, int)>
    decreases n,
{
    if n == 0 {
        Some((Seq::empty(), 0))
    } else {
        match symbols_read(data, (n - 1) as nat) {
            Some((before, pos)) => match symbol_at(data, pos) {
                Some((s, next)) => Some((before.push(s), next)),
                None => None,
            },
            None => None,
        }
    }
}

proof fn lemma_symbols_read(data: Seq<u8>, pairs: Seq<(u32, u32)>)
    requires
        forall|i: int| 0 <= i < pairs.len() ==> (#[trigger] pairs[i]).1 >= 2,
        holds(data, 0, coded_pairs(pairs)),
    ensures
        symbols_read(data, pair_symbols(pairs).len()) == Some(
            (pair_symbols(pairs), coded_pairs(pairs).len() as int),
        ),
    decreases pairs.len(),
{
    if pairs.len() > 0 {
        let rest = pairs.drop_last();
        let (run, v) = pairs.last();
        assert(v >= 2) by {
            assert(pairs[pairs.len() - 1].1 >= 2);
        }
        let a = coded_pairs(rest);
        let b = run_code(run as u64);
        let c = value_code(v as u64);
        lemma_holds_split(data, 0, a + b, c);
        lemma_holds_split(data, 0, a, b);
        assert forall|i: int| 0 <= i < rest.len() implies (#[trigger] rest[i]).1 >= 2 by {
            assert(rest[i] == pairs[i]);
        }
        lemma_symbols_read(data, rest);
        lemma_read_value_symbol(data, (a.len() + b.len()) as int, v as u64);
        let n = pair_symbols(rest).len();
        if run > 0 {
            lemma_read_run_symbol(data, a.len() as int, run as u64);
            assert(symbols_read(data, n + 1) == Some(
                (pair_symbols(rest).push(AcSymbol::Run(run as u64)), (a.len() + b.len()) as int),
            ));
        }
    }
}

/// Runs and values of at least 2 that are written one behind the other, and
/// nothing else, are read back in order: each run that is not 0, and then its
/// value.
pub proof fn law_symbols_round_trip(pairs: Seq<(u32, u32)>)
    requires
        forall|i: int| 0 <= i < pairs.len() ==> (#[trigger] pairs[i]).1 >= 2,
    ensures
        symbols_read(pack(coded_pairs(pairs)), pair_symbols(pairs).len()) == Some(
            (pair_symbols(pairs), coded_pairs(pairs).len() as int),
        ),
{
    let s = coded_pairs(pairs);
    assert forall|i: int| 0 <= i < s.len() implies #[trigger] stream_bit(pack(s), 0 + i) == s[i] by {
        lemma_packed(s, i);
    }
    lemma_symbols_read(pack(s), pairs);
}

// ---------------------------------------------------------------------------
// AC stream, front to back
// ---------------------------------------------------------------------------

/// The codes for the words from `j` on, `run` zeros pending before them.
pub open spec fn ac_rest(w: Seq<int>, j: int, run: nat) -> Seq<bool>
    decreases w.len() - j,
{
    if j >= w.len() {
        run_code(run as u64)
    } else if w[j] == 0 {
        ac_rest(w, j + 1, run + 1)
    } else {
        run_code(run as u64) + value_code(code_of(w[j]) as u64) + ac_rest(w, j + 1, 0)
    }
}

/// The stream is what the prefix has written and the rest.
proof fn lemma_ac_rest(w: Seq<int>, j: int)
    requires
        0 <= j <= w.len(),
    ensures
        ac_bits(w) == ac_prefix(w.take(j)).0 + ac_rest(w, j, ac_prefix(w.take(j)).1),
    decreases w.len() - j,
{
    if j == w.len() {
        assert(w.take(j) =~= w);
    } else {
        lemma_ac_rest(w, j + 1);
        assert(w.take(j + 1).drop_last() =~= w.take(j));
        let (bits, run) = ac_prefix(w.take(j));
        if w[j] != 0 {
            assert(bits + run_code(run as u64) + value_code(code_of(w[j]) as u64) + ac_rest(w, j + 1, 0)
                =~= bits + (run_code(run as u64) + value_code(code_of(w[j]) as u64) + ac_rest(
                w,
                j + 1,
                0,
            )));
        }
    }
}

/// How many zeros start at `j`.
pub open spec fn zeros_from(w: Seq<int>, j: int) -> nat
    decreases w.len() - j,
{
    if j >= w.len() || w[j] != 0 {
        0
    } else {
        1 + zeros_from(w, j + 1)
    }
}

/// A run of zeros is written as one run code.
proof fn lemma_ac_rest_run(w: Seq<int>, j: int, run: nat)
    requires
        0 <= j <= w.len(),
    ensures
        ({
            let r = zeros_from(w, j);
            &&& j + r <= w.len()
            &&& ac_rest(w, j, run) == run_code((run + r) as u64) + ac_rest(w, j + r, 0)
            &&& j + r < w.len() ==> w[j + r] != 0
            &&& forall|i: int| j <= i < j + r ==> w[i] == 0
        }),
    decreases w.len() - j,
{
    if j >= w.len() {
        assert(run_code(run as u64) + ac_rest(w, j, 0) =~= run_code(run as u64));
    } else if w[j] == 0 {
        lemma_ac_rest_run(w, j + 1, run + 1);
    } else {
        assert(run_code(run as u64) + ac_rest(w, j, 0) =~= run_code(run as u64) + value_code(
            code_of(w[j]) as u64,
        ) + ac_rest(w, j + 1, 0));
    }
}

/// Reading has reached word `64 k + n`, the end of a symbol, with the words of
/// block `k` before it all zero.
pub open spec fn block_start(w: Seq<int>, k: int, n: int) -> bool {
    let j = 64 * k + n;
    &&& 0 <= n
    &&& j <= w.len()
    &&& forall|i: int| 64 * k <= i < j ==> w[i] == 0
    &&& n > 0 ==> k > 0 && w[64 * k - 1] == 0
    &&& j < w.len() ==> w[j] != 0 || (n == 0 && (k == 0 || w[64 * k - 1] != 0))
}

/// The words of block `k`.
pub open spec fn block_words(w: Seq<int>, k: int) -> Seq<i16> {
    Seq::new(64, |i: int| w[64 * k + i] as i16)
}

/// Reading block `k` gives its words.
proof fn lemma_read_ac_block(
    data: Seq<u8>,
    pos: int,
    w: Seq<int>,
    k: int,
    pending: nat,
    block: Seq<i16>,
)
    requires
        0 <= k,
        64 * (k + 1) <= w.len(),
        w.len() < 0x1_0000_0000,
        forall|i: int| 0 <= i < w.len() ==> -32768 <= #[trigger] w[i] <= 32767,
        64 * k + pending <= w.len(),
        holds(data, pos, ac_rest(w, 64 * k + pending, 0)),
        block.len() == 64,
        forall|i: int|
            0 <= i < 64 ==> #[trigger] block[i] == (if i < pending {
                w[64 * k + i]
            } else {
                0
            }),
        pending >= 64 ==> block_start(w, k + 1, pending - 64),
    ensures
        match ac_block(data, pos, pending, block) {
            Some((b, p, n)) => {
                &&& b == block_words(w, k)
                &&& block_start(w, k + 1, n as int)
                &&& holds(data, p, ac_rest(w, 64 * (k + 1) + n, 0))
                &&& p + ac_rest(w, 64 * (k + 1) + n, 0).len() == pos + ac_rest(
                    w,
                    64 * k + pending,
                    0,
                ).len()
            },
            None => false,
        },
    decreases
            if pending < 64 {
                64 - pending
            } else {
                0
            },
{
    if pending >= 64 {
        assert(block =~= block_words(w, k));
        assert(64 * (k + 1) + (pending - 64) == 64 * k + pending);
    } else {
        let j = 64 * k + pending;
        let r = zeros_from(w, j);
        lemma_ac_rest_run(w, j, 0);
        if r > 0 {
            lemma_holds_split(data, pos, run_code(r as u64), ac_rest(w, j + r, 0));
            lemma_read_run_symbol(data, pos, r as u64);
            let p = pos + run_code(r as u64).len();
            assert(64 * k + (pending + r) == j + r);
            lemma_read_ac_block(data, p, w, k, pending + r, block);
        } else {
            assert(w[j] != 0);
            let v = code_of(w[j]) as u64;
            lemma_code_round_trip(w[j]);
            assert(run_code(0) =~= Seq::<bool>::empty());
            assert(ac_rest(w, j, 0) =~= value_code(v) + ac_rest(w, j + 1, 0));
            lemma_holds_split(data, pos, value_code(v), ac_rest(w, j + 1, 0));
            lemma_read_value_symbol(data, pos, v);
            let p = pos + value_code(v).len();
            let b1 = block.update(pending as int, coefficient_of(v as nat) as i16);
            assert(64 * k + (pending + 1) == j + 1);
            lemma_read_ac_block(data, p, w, k, pending + 1, b1);
        }
    }
}

// ---------------------------------------------------------------------------
// DC stream
// ---------------------------------------------------------------------------

/// One DC difference is read back.
proof fn lemma_read_dc(data: Seq<u8>, pos: int, diff: int)
    requires
        -0x2_0000 <= diff <= 0x2_0000,
        holds(data, pos, dc_code(diff)),
    ensures
        dc_at(data, pos) == Some(
            (
                if diff == 0 {
                    None
                } else {
                    Some(code_of(diff) as u64)
                },
                pos + dc_code(diff).len(),
            ),
        ),
{
    if diff == 0 {
        assert(stream_bit(data, pos + 0) == dc_code(diff)[0]);
    } else {
        lemma_read_value(data, pos, code_of(diff) as u64);
    }
}

/// A DC value at full precision again.
pub open spec fn restored_dc(d: int, dc_shift: nat) -> int {
    wrap16(d * pow2(dc_shift) as int)
}

proof fn lemma_mod_product(a: int, b: int, m: int)
    requires
        (a - b) % 65536 == 0,
    ensures
        (a * m - b * m) % 65536 == 0,
{
    let q = (a - b) / 65536;
    assert(a * m - b * m == 65536 * (q * m)) by (nonlinear_arith)
        requires
            a - b == 65536 * q,
    ;
}

/// Adding a coded difference to the last value gives the new value.
proof fn lemma_dc_sum(d0: int, d1: int, dc_shift: nat)
    requires
        -0x2_0000 <= d1 - d0 <= 0x2_0000,
    ensures
        wrap16(dc_step(code_of(d1 - d0) as u64, dc_shift) + restored_dc(d0, dc_shift)) == restored_dc(
            d1,
            dc_shift,
        ),
{
    let diff = d1 - d0;
    let m = pow2(dc_shift) as int;
    let c = coefficient_of(code_of(diff) as u64 as nat);
    assert(c == wrap16(diff));
    lemma_mod_product(c, diff, m);
    assert(diff * m + d0 * m == d1 * m) by (nonlinear_arith)
        requires
            diff == d1 - d0,
    ;
}

// ---------------------------------------------------------------------------
// A plane
// ---------------------------------------------------------------------------

/// The blocks as the reader gives them back: the AC coefficients as they
/// were, the DC with the precision that was kept.
pub open spec fn restored(blocks: Seq<Seq<i16>>, dc_shift: nat) -> Seq<Seq<i16>> {
    Seq::new(
        blocks.len(),
        |k: int|
            blocks[k].update(0, restored_dc(reduced_dc(blocks[k][0], dc_shift), dc_shift) as i16),
    )
}

/// Whether block `k` has an AC symbol of its own: it has none when all of it
/// belongs to a run of zeros that started in an earlier block.
pub open spec fn has_symbols(blocks: Seq<Seq<i16>>, k: int) -> bool {
    let w = ac_words(blocks);
    k == 0 || w[64 * k - 1] != 0 || exists|i: int| 64 * k <= i < 64 * (k + 1) && w[i] != 0
}

proof fn lemma_reduced_range(v: i16, dc_shift: nat)
    requires
        dc_shift <= 15,
    ensures
        -32768 <= reduced_dc(v, dc_shift) <= 32767,
{
    reveal(super::lanes::down16);
    vstd::arithmetic::power2::lemma_pow2_pos(dc_shift);
    let x = wrap16(v + super::slice::dc_round(dc_shift));
    let m = pow2(dc_shift) as int;
    assert(-32768 <= x / m <= 32767) by (nonlinear_arith)
        requires
            -32768 <= x <= 32767,
            m >= 1,
    ;
}

proof fn lemma_dc_prefix(values: Seq<int>, k: int)
    requires
        0 <= k < values.len(),
    ensures
        dc_bits(values.take(k + 1)) == dc_bits(values.take(k)) + dc_code(
            values[k] - previous(values.take(k)),
        ),
{
    assert(values.take(k + 1).drop_last() =~= values.take(k));
}

/// The codes of a longer prefix start with those of a shorter one.
proof fn lemma_dc_split(values: Seq<int>, k: int) -> (rest: Seq<bool>)
    requires
        0 <= k <= values.len(),
    ensures
        dc_bits(values) == dc_bits(values.take(k)) + rest,
    decreases values.len() - k,
{
    if k == values.len() {
        assert(values.take(k) =~= values);
        assert(dc_bits(values) =~= dc_bits(values.take(k)) + Seq::<bool>::empty());
        Seq::empty()
    } else {
        let r = lemma_dc_split(values, k + 1);
        lemma_dc_prefix(values, k);
        let c = dc_code(values[k] - previous(values.take(k)));
        assert(dc_bits(values.take(k)) + c + r =~= dc_bits(values.take(k)) + (c + r));
        c + r
    }
}

/// The code of value `k` stands behind those of the values before it.
proof fn lemma_next_dc(dcd: Seq<u8>, dc0: int, values: Seq<int>, k: int)
    requires
        0 <= k < values.len(),
        holds(dcd, dc0, dc_bits(values)),
    ensures
        ({
            let c = dc_code(values[k] - previous(values.take(k)));
            &&& holds(dcd, dc0 + dc_bits(values.take(k)).len(), c)
            &&& dc_bits(values.take(k + 1)) == dc_bits(values.take(k)) + c
        }),
{
    let c = dc_code(values[k] - previous(values.take(k)));
    let rest = lemma_dc_split(values, k + 1);
    lemma_dc_prefix(values, k);
    let before = dc_bits(values.take(k));
    assert(dc_bits(values) =~= before + (c + rest));
    lemma_holds_split(dcd, dc0, before, c + rest);
    lemma_holds_split(dcd, dc0 + before.len(), c, rest);
}

/// The first `n` blocks are read back.
#[verifier::rlimit(30)]
proof fn lemma_read_blocks(
    dcd: Seq<u8>,
    acd: Seq<u8>,
    dc0: int,
    ac0: int,
    blocks: Seq<Seq<i16>>,
    dc_shift: nat,
    n: nat,
)
    requires
        dc_shift <= 15,
        n <= blocks.len() < 0x100_0000,
        forall|k: int| 0 <= k < blocks.len() ==> (#[trigger] blocks[k]).len() == 64,
        holds(dcd, dc0, dc_bits(dc_values(blocks, dc_shift))),
        holds(acd, ac0, ac_bits(ac_words(blocks))),
    ensures
        match read_blocks(dcd, acd, dc0, ac0, dc_shift, n) {
            Some(st) => {
                &&& st.blocks == restored(blocks, dc_shift).take(n as int)
                &&& st.coded == Seq::new(n, |k: int| has_symbols(blocks, k))
                &&& st.pred == (if n == 0 {
                    0
                } else {
                    restored_dc(dc_values(blocks, dc_shift)[n - 1], dc_shift)
                })
                &&& st.dc == dc0 + dc_bits(dc_values(blocks, dc_shift).take(n as int)).len()
                &&& block_start(ac_words(blocks), n as int, st.pending as int)
                &&& holds(acd, st.ac, ac_rest(ac_words(blocks), 64 * n as int + st.pending, 0))
                &&& st.ac + ac_rest(ac_words(blocks), 64 * n as int + st.pending, 0).len() == ac0 + ac_bits(
                    ac_words(blocks),
                ).len()
            },
            None => false,
        },
    decreases n,
{
    let w = ac_words(blocks);
    let values = dc_values(blocks, dc_shift);
    if n == 0 {
        lemma_ac_rest(w, 0);
        assert(w.take(0) =~= Seq::empty());
        assert(ac_prefix(w.take(0)).0 + ac_rest(w, 0, 0) =~= ac_rest(w, 0, 0));
        assert(values.take(0) =~= Seq::empty());
        assert(restored(blocks, dc_shift).take(0) =~= Seq::empty());
        assert(Seq::new(0, |k: int| has_symbols(blocks, k)) =~= Seq::empty());
    } else {
        let k = n - 1;
        lemma_read_blocks(dcd, acd, dc0, ac0, blocks, dc_shift, k as nat);
        let st = read_blocks(dcd, acd, dc0, ac0, dc_shift, k as nat)->0;
        // AC.
        lemma_read_ac_block(acd, st.ac, w, k, st.pending, zero_block());
        let (b, ac, pending) = ac_block(acd, st.ac, st.pending, zero_block())->0;
        assert(64 * (k + 1) + pending == 64 * n + pending);
        // DC.
        lemma_next_dc(dcd, dc0, values, k);
        let diff = values[k] - previous(values.take(k));
        lemma_reduced_range(blocks[k][0], dc_shift);
        if k > 0 {
            lemma_reduced_range(blocks[k - 1][0], dc_shift);
            assert(previous(values.take(k)) == values[k - 1]);
        }
        lemma_read_dc(dcd, st.dc, diff);
        let d0 = if k == 0 {
            0
        } else {
            values[k - 1]
        };
        lemma_dc_sum(d0, values[k], dc_shift);
        lemma_same_dc(d0, dc_shift);
        assert(b[0] == 0);
        let d = restored_dc(values[k], dc_shift);
        let next = next_block(dcd, acd, dc_shift, st)->0;
        assert(next.pred == d);
        assert(b.update(0, d as i16) =~= restored(blocks, dc_shift)[k]) by {
            assert forall|i: int| 1 <= i < 64 implies b[i] == blocks[k][i] by {
                assert((64 * k + i) / 64 == k && (64 * k + i) % 64 == i);
            }
        }
        assert(next.blocks =~= restored(blocks, dc_shift).take(n as int));
        lemma_has_symbols(blocks, k, st.pending as int);
        assert(next.coded =~= Seq::new(n, |k: int| has_symbols(blocks, k)));
    }
}

proof fn lemma_same_dc(d: int, dc_shift: nat)
    ensures
        wrap16(0 + restored_dc(d, dc_shift)) == restored_dc(d, dc_shift),
        restored_dc(0, dc_shift) == 0,
{
}

/// A block starts inside an earlier run exactly when at least 64 zeros are
/// pending.
proof fn lemma_has_symbols(blocks: Seq<Seq<i16>>, k: int, n: int)
    requires
        0 <= k < blocks.len(),
        block_start(ac_words(blocks), k, n),
    ensures
        has_symbols(blocks, k) <==> n < 64,
{
    let w = ac_words(blocks);
    if n < 64 {
        let j = 64 * k + n;
        assert(j < w.len());
        if w[j] != 0 {
            assert(64 * k <= j < 64 * (k + 1) && w[j] != 0);
        }
    }
}

/// The entropy coder is lossless: from streams that hold the codes of some
/// blocks, the reader gets the same blocks back, the DC reduced to the
/// precision that was kept, and ends where the codes end.
pub proof fn law_plane_round_trip(
    dcd: Seq<u8>,
    acd: Seq<u8>,
    dc0: int,
    ac0: int,
    blocks: Seq<Seq<i16>>,
    dc_shift: nat,
)
    requires
        dc_shift <= 15,
        blocks.len() < 0x100_0000,
        forall|k: int| 0 <= k < blocks.len() ==> (#[trigger] blocks[k]).len() == 64,
        holds(dcd, dc0, dc_bits(dc_values(blocks, dc_shift))),
        holds(acd, ac0, ac_bits(ac_words(blocks))),
    ensures
        match read_blocks(dcd, acd, dc0, ac0, dc_shift, blocks.len()) {
            Some(st) => {
                &&& st.blocks == restored(blocks, dc_shift)
                &&& st.coded == Seq::new(blocks.len(), |k: int| has_symbols(blocks, k))
                &&& st.dc == dc0 + dc_bits(dc_values(blocks, dc_shift)).len()
                &&& st.ac == ac0 + ac_bits(ac_words(blocks)).len()
            },
            None => false,
        },
{
    let n = blocks.len();
    lemma_read_blocks(dcd, acd, dc0, ac0, blocks, dc_shift, n);
    let st = read_blocks(dcd, acd, dc0, ac0, dc_shift, n)->0;
    assert(restored(blocks, dc_shift).take(n as int) =~= restored(blocks, dc_shift));
    assert(dc_values(blocks, dc_shift).take(n as int) =~= dc_values(blocks, dc_shift));
    assert(st.pending == 0);
    assert(ac_rest(ac_words(blocks), 64 * n as int + st.pending, 0) =~= Seq::<bool>::empty());
}

/// With full DC precision nothing is lost.
pub proof fn law_full_precision(blocks: Seq<Seq<i16>>)
    requires
        forall|k: int| 0 <= k < blocks.len() ==> (#[trigger] blocks[k]).len() == 64,
    ensures
        restored(blocks, 0) == blocks,
{
    reveal(super::lanes::down16);
    vstd::arithmetic::power2::lemma2_to64();
    assert forall|k: int| 0 <= k < blocks.len() implies restored(blocks, 0)[k] == blocks[k] by {
        assert(restored(blocks, 0)[k] =~= blocks[k]);
    }
    assert(restored(blocks, 0) =~= blocks);
}

// ---------------------------------------------------------------------------
// A slice
// ---------------------------------------------------------------------------

/// `s` with the plane's streams appended and padded.
proof fn lemma_padded_at(s: Seq<bool>, b: Seq<bool>, t: Seq<bool>, more: Seq<bool>)
    requires
        s.len() % 8 == 0,
        t == pad8(s + b) + more,
    ensures
        t == s + (b + t.skip((s.len() + b.len()) as int)),
        pad8(s + b).len() == (s.len() + b.len() + 7) / 8 * 8,
{
    assert(t =~= s + (b + t.skip((s.len() + b.len()) as int)));
}

/// How the coded planes relate to a longer list of them.
proof fn lemma_slice_streams(
    pl: Seq<Seq<Seq<u16>>>,
    l: Layout,
    s: int,
    n: int,
    total: int,
    depth: Depth,
    matrix: Seq<u16>,
    dc_shift: nat,
) -> (more: (Seq<bool>, Seq<bool>))
    requires
        0 <= n <= total,
    ensures
        slice_dc(pl, l, s, total, depth, matrix, dc_shift) == slice_dc(
            pl,
            l,
            s,
            n,
            depth,
            matrix,
            dc_shift,
        ) + more.0,
        slice_ac(pl, l, s, total, depth, matrix, dc_shift) == slice_ac(
            pl,
            l,
            s,
            n,
            depth,
            matrix,
            dc_shift,
        ) + more.1,
    decreases total - n,
{
    let d = slice_dc(pl, l, s, n, depth, matrix, dc_shift);
    let a = slice_ac(pl, l, s, n, depth, matrix, dc_shift);
    if n == total {
        assert(d + Seq::<bool>::empty() =~= d);
        assert(a + Seq::<bool>::empty() =~= a);
        (Seq::empty(), Seq::empty())
    } else {
        let m = lemma_slice_streams(pl, l, s, n + 1, total, depth, matrix, dc_shift);
        let b = slice_blocks(pl, l, s, n, depth, matrix, dc_shift);
        let db = dc_bits(dc_values(b, dc_shift));
        let ab = ac_bits(ac_words(b));
        lemma_pad_prefix(d, db, m.0);
        lemma_pad_prefix(a, ab, m.1);
        (
            pad8(d + db).skip(d.len() as int) + m.0,
            pad8(a + ab).skip(a.len() as int) + m.1,
        )
    }
}

/// Padding only appends.
proof fn lemma_pad_prefix(s: Seq<bool>, b: Seq<bool>, more: Seq<bool>)
    ensures
        pad8(s + b) + more == s + (pad8(s + b).skip(s.len() as int) + more),
{
    assert(pad8(s + b) + more =~= s + (pad8(s + b).skip(s.len() as int) + more));
}

/// Slice streams are whole bytes.
proof fn lemma_slice_len(
    pl: Seq<Seq<Seq<u16>>>,
    l: Layout,
    s: int,
    n: int,
    depth: Depth,
    matrix: Seq<u16>,
    dc_shift: nat,
)
    ensures
        slice_dc(pl, l, s, n, depth, matrix, dc_shift).len() % 8 == 0,
        slice_ac(pl, l, s, n, depth, matrix, dc_shift).len() % 8 == 0,
{
    if n > 0 {
        let b = slice_blocks(pl, l, s, n - 1, depth, matrix, dc_shift);
        lemma_pad_len(
            slice_dc(pl, l, s, n - 1, depth, matrix, dc_shift) + dc_bits(dc_values(b, dc_shift)),
        );
        lemma_pad_len(slice_ac(pl, l, s, n - 1, depth, matrix, dc_shift) + ac_bits(ac_words(b)));
    }
}

proof fn lemma_pad_len(s: Seq<bool>)
    ensures
        pad8(s).len() % 8 == 0,
{
}

/// What the decoder makes, at depth `back`, of the blocks that the encoder
/// coded.
pub open spec fn rebuilt_plane(
    old: Seq<Seq<u16>>,
    pl: Seq<Seq<Seq<u16>>>,
    l: Layout,
    s: int,
    p: int,
    depth: Depth,
    back: Depth,
    preset: int,
    dc_shift: nat,
) -> Seq<Seq<u16>> {
    let blocks = slice_blocks(pl, l, s, p, depth, encode_matrix(preset), dc_shift);
    painted(
        old,
        16 * s,
        l.stride_of(p),
        coding(p, back, dc_shift),
        decode_matrix(preset),
        restored(blocks, dc_shift),
        Seq::new(blocks.len(), |k: int| has_symbols(blocks, k)),
    )
}

/// The first `n` planes of slice `s`, rebuilt.
pub open spec fn rebuilt_slice(
    old: Seq<Seq<Seq<u16>>>,
    pl: Seq<Seq<Seq<u16>>>,
    l: Layout,
    s: int,
    n: int,
    depth: Depth,
    back: Depth,
    preset: int,
    dc_shift: nat,
) -> Seq<Seq<Seq<u16>>> {
    Seq::new(
        old.len(),
        |p: int|
            if p < n {
                rebuilt_plane(old[p], pl, l, s, p, depth, back, preset, dc_shift)
            } else {
                old[p]
            },
    )
}

/// One plane more of a slice.
proof fn lemma_rebuilt_next(
    old: Seq<Seq<Seq<u16>>>,
    pl: Seq<Seq<Seq<u16>>>,
    l: Layout,
    s: int,
    n: int,
    depth: Depth,
    back: Depth,
    preset: int,
    dc_shift: nat,
)
    requires
        0 < n <= old.len(),
    ensures
        ({
            let before = rebuilt_slice(old, pl, l, s, n - 1, depth, back, preset, dc_shift);
            &&& before[n - 1] == old[n - 1]
            &&& rebuilt_slice(old, pl, l, s, n, depth, back, preset, dc_shift) == before.update(
                n - 1,
                rebuilt_plane(old[n - 1], pl, l, s, n - 1, depth, back, preset, dc_shift),
            )
        }),
{
    let before = rebuilt_slice(old, pl, l, s, n - 1, depth, back, preset, dc_shift);
    assert(rebuilt_slice(old, pl, l, s, n, depth, back, preset, dc_shift) =~= before.update(
        n - 1,
        rebuilt_plane(old[n - 1], pl, l, s, n - 1, depth, back, preset, dc_shift),
    ));
}

/// A slice is read back: every plane is rebuilt from the blocks that were
/// coded, and the streams are used up.
pub proof fn law_slice_round_trip(
    old: Seq<Seq<Seq<u16>>>,
    pl: Seq<Seq<Seq<u16>>>,
    l: Layout,
    s: int,
    n: int,
    total: int,
    depth: Depth,
    back: Depth,
    preset: int,
    dc_shift: nat,
)
    requires
        l.wf(),
        old.len() == 4,
        0 <= n <= total <= 4,
        dc_shift <= 15,
    ensures
        ({
            let m = encode_matrix(preset);
            slice_read(
                old,
                l,
                s,
                n,
                back,
                decode_matrix(preset),
                dc_shift,
                pack(slice_dc(pl, l, s, total, depth, m, dc_shift)),
                pack(slice_ac(pl, l, s, total, depth, m, dc_shift)),
            ) == Some(
                SliceState {
                    planes: rebuilt_slice(old, pl, l, s, n, depth, back, preset, dc_shift),
                    dc: slice_dc(pl, l, s, n, depth, m, dc_shift).len() as int,
                    ac: slice_ac(pl, l, s, n, depth, m, dc_shift).len() as int,
                },
            )
        }),
    decreases n,
{
    let m = encode_matrix(preset);
    if n <= 0 {
        assert(rebuilt_slice(old, pl, l, s, n, depth, back, preset, dc_shift) =~= old);
    } else {
        let p = n - 1;
        law_slice_round_trip(old, pl, l, s, p, total, depth, back, preset, dc_shift);
        let td = slice_dc(pl, l, s, total, depth, m, dc_shift);
        let ta = slice_ac(pl, l, s, total, depth, m, dc_shift);
        let (dcd, acd) = (pack(td), pack(ta));
        let d = slice_dc(pl, l, s, p, depth, m, dc_shift);
        let a = slice_ac(pl, l, s, p, depth, m, dc_shift);
        let blocks = slice_blocks(pl, l, s, p, depth, m, dc_shift);
        let db = dc_bits(dc_values(blocks, dc_shift));
        let ab = ac_bits(ac_words(blocks));
        let more = lemma_slice_streams(pl, l, s, n, total, depth, m, dc_shift);
        lemma_slice_len(pl, l, s, total, depth, m, dc_shift);
        lemma_slice_len(pl, l, s, p, depth, m, dc_shift);
        lemma_padded_at(d, db, td, more.0);
        lemma_padded_at(a, ab, ta, more.1);
        lemma_stream_holds(td, d, db, td.skip((d.len() + db.len()) as int));
        lemma_stream_holds(ta, a, ab, ta.skip((a.len() + ab.len()) as int));
        assert forall|k: int| 0 <= k < blocks.len() implies (#[trigger] blocks[k]).len() == 64 by {
            lemma_plane_block_len(pl[p], 16 * s, l.stride_of(p), coding(p, depth, dc_shift), m, k);
        }
        law_plane_round_trip(dcd, acd, d.len() as int, a.len() as int, blocks, dc_shift);
        lemma_rebuilt_next(old, pl, l, s, n, depth, back, preset, dc_shift);
    }
}

proof fn lemma_plane_block_len(
    rows: Seq<Seq<u16>>,
    top: int,
    stride: int,
    c: PlaneCoding,
    matrix: Seq<u16>,
    k: int,
)
    requires
        0 <= k < block_count(stride),
    ensures
        plane_blocks(rows, top, stride, c, matrix)[k].len() == 64,
{
    lemma_forward_zig_len(
        block_lanes(rows, block_row(top, stride, k), block_column(stride, k), c.depth),
        c.depth,
        matrix,
        -c.shift,
    );
}

/// The packed stream holds each of its parts.
proof fn lemma_stream_holds(t: Seq<bool>, a: Seq<bool>, b: Seq<bool>, c: Seq<bool>)
    requires
        t == a + (b + c),
        t.len() % 8 == 0,
    ensures
        holds(pack(t), a.len() as int, b),
{
    assert(pad8(t) =~= t);
    assert forall|i: int| 0 <= i < b.len() implies #[trigger] stream_bit(pack(t), a.len() + i) == b[i] by {
        lemma_packed(t, a.len() + i);
        assert(t[a.len() + i] == b[i]);
    }
}

// ---------------------------------------------------------------------------
// A frame
// ---------------------------------------------------------------------------

/// The decoded planes after the first `k` slices of an encoded frame.
pub open spec fn rebuilt(
    pl: Seq<Seq<Seq<u16>>>,
    l: Layout,
    k: int,
    n: int,
    depth: Depth,
    back: Depth,
    preset: int,
    dc_shift: nat,
) -> Seq<Seq<Seq<u16>>>
    decreases k,
{
    if k <= 0 {
        filled(
            l,
            match back {
                Depth::Eight => FILL8@,
                Depth::Ten => FILL16@,
            },
        )
    } else {
        rebuilt_slice(
            rebuilt(pl, l, k - 1, n, depth, back, preset, dc_shift),
            pl,
            l,
            k - 1,
            n,
            depth,
            back,
            preset,
            dc_shift,
        )
    }
}

proof fn lemma_slices_read(
    pl: Seq<Seq<Seq<u16>>>,
    l: Layout,
    c: ContainerView,
    n: int,
    total: int,
    depth: Depth,
    back: Depth,
    preset: int,
    k: int,
)
    requires
        l.wf(),
        0 <= k <= l.slices,
        0 <= n <= total <= 4,
        0 <= c.dc_shift <= 15,
        c.dc == dc_streams(pl, l, total, depth, encode_matrix(preset), c.dc_shift as nat),
        c.ac == ac_streams(pl, l, total, depth, encode_matrix(preset), c.dc_shift as nat),
    ensures
        slices_read(l, c, n, back, decode_matrix(preset), k) == Some(
            rebuilt(pl, l, k, n, depth, back, preset, c.dc_shift as nat),
        ),
        rebuilt(pl, l, k, n, depth, back, preset, c.dc_shift as nat).len() == 4,
    decreases k,
{
    if k > 0 {
        lemma_slices_read(pl, l, c, n, total, depth, back, preset, k - 1);
        law_slice_round_trip(
            rebuilt(pl, l, k - 1, n, depth, back, preset, c.dc_shift as nat),
            pl,
            l,
            k - 1,
            n,
            total,
            depth,
            back,
            preset,
            c.dc_shift as nat,
        );
    }
}

/// Sample `x` of row `r` of plane `p` as the decoder gives it back: the block
/// of the encoder's planes that holds it, transformed, quantised, and
/// transformed back with the same preset, at depth `back`.
pub open spec fn rebuilt_sample(
    pl: Seq<Seq<Seq<u16>>>,
    l: Layout,
    depth: Depth,
    back: Depth,
    preset: int,
    dc_shift: nat,
    p: int,
    r: int,
    x: int,
) -> int {
    let s = r / 16;
    let blocks = slice_blocks(pl, l, s, p, depth, encode_matrix(preset), dc_shift);
    let k = block_index(16 * s, l.stride_of(p), r, x);
    block_sample(
        restored(blocks, dc_shift)[k],
        has_symbols(blocks, k),
        coding(p, back, dc_shift),
        decode_matrix(preset),
        (r - 16 * s) % 8,
        x % 8,
    )
}

proof fn lemma_rebuilt_sample(
    pl: Seq<Seq<Seq<u16>>>,
    l: Layout,
    k: int,
    n: int,
    depth: Depth,
    back: Depth,
    preset: int,
    dc_shift: nat,
    p: int,
    r: int,
    x: int,
)
    requires
        l.wf(),
        0 <= k <= l.slices,
        0 <= p < n <= 4,
        0 <= r < l.aligned_height,
        0 <= x < l.stride_of(p),
    ensures
        ({
            let v = rebuilt(pl, l, k, n, depth, back, preset, dc_shift);
            &&& v.len() == 4
            &&& v[p].len() == l.aligned_height
            &&& v[p][r].len() == l.stride_of(p)
            &&& r < 16 * k ==> v[p][r][x] == rebuilt_sample(pl, l, depth, back, preset, dc_shift, p, r, x) as u16
        }),
    decreases k,
{
    if k > 0 {
        lemma_rebuilt_sample(pl, l, k - 1, n, depth, back, preset, dc_shift, p, r, x);
        if 16 * (k - 1) <= r < 16 * k {
            assert(r / 16 == k - 1);
            let i = block_index(16 * (k - 1), l.stride_of(p), r, x);
            assert(0 <= i < block_count(l.stride_of(p)));
        }
    }
}

/// The container can hold the frame: no slice stream is longer than it allows
/// and the quality fits in its byte.
pub open spec fn fits_container(st: EncoderState, f: Frame) -> bool {
    let l = st.layout;
    let pl = st.planes_for(f);
    let m = encode_matrix(st.quality.1);
    let n = plane_count(f.format);
    let depth = depth_of(f.format);
    let shift = st.params.dc_shift as nat;
    &&& 0 <= st.quality.0 <= 255
    &&& forall|s: int|
        0 <= s < l.slices ==> (#[trigger] dc_streams(pl, l, n, depth, m, shift)[s]).len()
            <= l.dc_limit()
    &&& forall|s: int|
        0 <= s < l.slices ==> (#[trigger] ac_streams(pl, l, n, depth, m, shift)[s]).len()
            <= l.ac_limit()
}

/// The packet of a frame as the decoder parses it.
pub open spec fn packet_view(st: EncoderState, f: Frame) -> ContainerView {
    let pl = st.planes_for(f);
    let m = encode_matrix(st.quality.1);
    let n = plane_count(f.format);
    let depth = depth_of(f.format);
    let shift = st.params.dc_shift;
    ContainerView {
        interlaced: st.coded_interlaced(f),
        quality: st.quality.0,
        dc_shift: shift as int,
        header_len: if shift > 0 {
            5
        } else {
            3
        },
        dc: dc_streams(pl, st.layout, n, depth, m, shift as nat),
        ac: ac_streams(pl, st.layout, n, depth, m, shift as nat),
    }
}

/// The packet of a frame parses.
pub proof fn law_packet_parses(st: EncoderState, f: Frame)
    requires
        st.layout.wf(),
        st.params.dc_shift <= 15,
        fits_container(st, f),
    ensures
        parse_of(st.layout, st.packet(f)) == Ok::<ContainerView, Error>(packet_view(st, f)),
{
    let v = packet_view(st, f);
    law_container_round_trip(st.layout, v.interlaced, v.quality, v.dc_shift, v.dc, v.ac);
}

/// Decoding what was encoded gives the frame's planes back, but for what
/// quantisation took: the packet of a frame parses, every slice of it is
/// readable, and each decoded sample is that of its own block transformed,
/// quantised and transformed back. This holds of every format that frames are
/// decoded to, whatever the format and the depth they were encoded from, as
/// long as no alpha is asked for that was not encoded.
pub proof fn law_decode_encode(st: EncoderState, f: Frame, out: PixelFormat)
    requires
        st.layout.wf(),
        st.params.dc_shift <= 15,
        st.refuses(f) is None,
        st.quality == preset_of(st.quality.0),
        fits_container(st, f),
        !halved_format(out),
        alpha_format(out) ==> alpha_format(f.format),
    ensures
        parse_of(st.layout, st.packet(f)) is Ok,
        ({
            let got = decoded_planes(st.layout, parse_of(st.layout, st.packet(f))->Ok_0, out);
            &&& got is Some
            &&& forall|p: int, r: int, x: int|
                0 <= p < plane_count(out) && 0 <= r < st.layout.aligned_height && 0 <= x
                    < st.layout.stride_of(p) ==> #[trigger] got->Some_0[p][r][x] == rebuilt_sample(
                    st.planes_for(f),
                    st.layout,
                    depth_of(f.format),
                    depth_of(out),
                    st.quality.1,
                    st.params.dc_shift as nat,
                    p,
                    r,
                    x,
                ) as u16
        }),
{
    law_packet_parses(st, f);
    lemma_decoded(
        st.planes_for(f),
        st.layout,
        packet_view(st, f),
        plane_count(out),
        plane_count(f.format),
        depth_of(f.format),
        depth_of(out),
        st.quality.1,
    );
}

proof fn lemma_decoded(
    pl: Seq<Seq<Seq<u16>>>,
    l: Layout,
    c: ContainerView,
    n: int,
    total: int,
    depth: Depth,
    back: Depth,
    preset: int,
)
    requires
        l.wf(),
        0 <= n <= total <= 4,
        0 <= c.dc_shift <= 15,
        c.dc == dc_streams(pl, l, total, depth, encode_matrix(preset), c.dc_shift as nat),
        c.ac == ac_streams(pl, l, total, depth, encode_matrix(preset), c.dc_shift as nat),
    ensures
        ({
            let out = slices_read(l, c, n, back, decode_matrix(preset), l.slices as int);
            &&& out is Some
            &&& forall|p: int, r: int, x: int|
                0 <= p < n && 0 <= r < l.aligned_height && 0 <= x < l.stride_of(p)
                    ==> #[trigger] out->Some_0[p][r][x] == rebuilt_sample(
                    pl,
                    l,
                    depth,
                    back,
                    preset,
                    c.dc_shift as nat,
                    p,
                    r,
                    x,
                ) as u16
        }),
{
    lemma_slices_read(pl, l, c, n, total, depth, back, preset, l.slices as int);
    let out = rebuilt(pl, l, l.slices as int, n, depth, back, preset, c.dc_shift as nat);
    assert forall|p: int, r: int, x: int|
        0 <= p < n && 0 <= r < l.aligned_height && 0 <= x < l.stride_of(p) implies #[trigger] out[p][r][x]
        == rebuilt_sample(pl, l, depth, back, preset, c.dc_shift as nat, p, r, x) as u16 by {
        lemma_rebuilt_sample(pl, l, l.slices as int, n, depth, back, preset, c.dc_shift as nat, p, r, x);
    }
}

// ---------------------------------------------------------------------------
// A preview
// ---------------------------------------------------------------------------

/// The DC values of some blocks as the reader gives them back.
pub open spec fn restored_dcs(blocks: Seq<Seq<i16>>, dc_shift: nat) -> Seq<int> {
    Seq::new(blocks.len(), |k: int| restored_dc(reduced_dc(blocks[k][0], dc_shift), dc_shift))
}

/// The first `n` DC values are read back.
proof fn lemma_read_dcs(dcd: Seq<u8>, dc0: int, blocks: Seq<Seq<i16>>, dc_shift: nat, n: nat)
    requires
        dc_shift <= 15,
        n <= blocks.len(),
        holds(dcd, dc0, dc_bits(dc_values(blocks, dc_shift))),
    ensures
        read_dcs(dcd, dc0, dc_shift, n) == Some(
            (
                restored_dcs(blocks, dc_shift).take(n as int),
                dc0 + dc_bits(dc_values(blocks, dc_shift).take(n as int)).len(),
            ),
        ),
    decreases n,
{
    let values = dc_values(blocks, dc_shift);
    let all = restored_dcs(blocks, dc_shift);
    if n == 0 {
        assert(values.take(0) =~= Seq::empty());
        assert(all.take(0) =~= Seq::empty());
    } else {
        let k = n - 1;
        lemma_read_dcs(dcd, dc0, blocks, dc_shift, k as nat);
        lemma_next_dc(dcd, dc0, values, k);
        let diff = values[k] - previous(values.take(k));
        lemma_reduced_range(blocks[k][0], dc_shift);
        if k > 0 {
            lemma_reduced_range(blocks[k - 1][0], dc_shift);
            assert(previous(values.take(k)) == values[k - 1]);
            assert(previous(all.take(k)) == all[k - 1]);
        }
        let d0 = if k == 0 {
            0
        } else {
            values[k - 1]
        };
        lemma_read_dc(dcd, dc0 + dc_bits(values.take(k)).len(), diff);
        lemma_dc_sum(d0, values[k], dc_shift);
        lemma_same_dc(d0, dc_shift);
        assert(all.take(n as int) =~= all.take(k).push(all[k]));
    }
}

/// The preview of a slice is read back: every plane shows the DC values of the
/// blocks that were coded.
pub proof fn law_preview_round_trip(
    pl: Seq<Seq<Seq<u16>>>,
    l: Layout,
    s: int,
    n: int,
    total: int,
    depth: Depth,
    m: Seq<u16>,
    dc_shift: nat,
)
    requires
        l.wf(),
        0 <= n <= total <= 4,
        dc_shift <= 15,
    ensures
        preview_slice(l, pack(slice_dc(pl, l, s, total, depth, m, dc_shift)), dc_shift, n) == Some(
            (
                Seq::new(
                    n as nat,
                    |p: int|
                        preview_rows(
                            restored_dcs(slice_blocks(pl, l, s, p, depth, m, dc_shift), dc_shift),
                            l.stride_of(p),
                            level_shift_of(p, Depth::Eight),
                        ),
                ),
                slice_dc(pl, l, s, n, depth, m, dc_shift).len() as int,
            ),
        ),
    decreases n,
{
    let rows = |p: int|
        preview_rows(
            restored_dcs(slice_blocks(pl, l, s, p, depth, m, dc_shift), dc_shift),
            l.stride_of(p),
            level_shift_of(p, Depth::Eight),
        );
    if n <= 0 {
        assert(Seq::new(n as nat, rows) =~= Seq::empty());
    } else {
        let p = n - 1;
        law_preview_round_trip(pl, l, s, p, total, depth, m, dc_shift);
        let td = slice_dc(pl, l, s, total, depth, m, dc_shift);
        let d = slice_dc(pl, l, s, p, depth, m, dc_shift);
        let blocks = slice_blocks(pl, l, s, p, depth, m, dc_shift);
        let db = dc_bits(dc_values(blocks, dc_shift));
        let more = lemma_slice_streams(pl, l, s, n, total, depth, m, dc_shift);
        lemma_slice_len(pl, l, s, total, depth, m, dc_shift);
        lemma_slice_len(pl, l, s, p, depth, m, dc_shift);
        lemma_padded_at(d, db, td, more.0);
        lemma_stream_holds(td, d, db, td.skip((d.len() + db.len()) as int));
        lemma_read_dcs(pack(td), d.len() as int, blocks, dc_shift, blocks.len());
        assert(restored_dcs(blocks, dc_shift).take(blocks.len() as int) =~= restored_dcs(blocks, dc_shift));
        assert(dc_values(blocks, dc_shift).take(blocks.len() as int) =~= dc_values(blocks, dc_shift));
        assert(blocks.len() == block_count(l.stride_of(p)));
        assert(Seq::new(n as nat, rows) =~= Seq::new(p as nat, rows).push(rows(p)));
    }
}

} // verus!
